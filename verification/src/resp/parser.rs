//! Parser for the RESP wire format and for the legacy inline command form.
use vstd::prelude::*;
use vstd::slice::slice_subrange;
use vstd::string::StrSliceExecFns;
use vstd::utf8::*;
use crate::resp::types::{RespType, RespValue, lemma_values_of, values_of};
use crate::utils::text::{
    chars_of, is_whitespace, is_whitespace_char, parse_i64, parse_i64_chars, parse_usize,
    parse_usize_chars, str_eq, utf8_to_string,
};

verus! {

/// Why a buffer could not be parsed.
#[derive(Debug)]
pub enum ParseError {
    /// The buffer does not hold a complete message yet; read more and retry.
    Incomplete,
    /// The data is malformed.
    Invalid(String),
}

impl ParseError {
    /// The text of this error, as shown to a user.
    pub fn message(&self) -> (r: String)
        ensures
            r@ == match self {
                ParseError::Incomplete => "Incomplete data"@,
                ParseError::Invalid(m) => m@,
            },
    {
        match self {
            ParseError::Incomplete => String::from_str("Incomplete data"),
            ParseError::Invalid(m) => m.clone(),
        }
    }
}

/// `ParseError` with the message taken by its characters.
pub enum ParseFailure {
    Incomplete,
    Invalid(Seq<char>),
}

/// The parser.
pub struct Parser;

// ---------------------------------------------------------------------------
// The grammar
// ---------------------------------------------------------------------------

/// Position of the first `\r\n` in `s` at or after `i`.
pub open spec fn crlf_from(s: Seq<u8>, i: int) -> Option<int>
    decreases s.len() - i,
{
    if i < 0 || i + 1 >= s.len() {
        None
    } else if s[i] == 13 && s[i + 1] == 10 {
        Some(i)
    } else {
        crlf_from(s, i + 1)
    }
}

pub proof fn lemma_crlf_from(s: Seq<u8>, j: int)
    ensures
        match crlf_from(s, j) {
            Some(i) => {
                &&& 0 <= j <= i
                &&& i + 1 < s.len()
                &&& s[i] == 13 && s[i + 1] == 10
                &&& forall|k: int| j <= k < i ==> !(#[trigger] s[k] == 13 && s[k + 1] == 10)
            },
            None => forall|k: int| 0 <= j <= k && k + 1 < s.len() ==> !(#[trigger] s[k] == 13 && s[k
                + 1] == 10),
        },
    decreases s.len() - j,
{
    if j < 0 || j + 1 >= s.len() {
    } else if s[j] == 13 && s[j + 1] == 10 {
    } else {
        lemma_crlf_from(s, j + 1);
    }
}

/// The first bytes that announce a RESP value: `+ - : $ * _ #`.
pub open spec fn is_type_byte(b: u8) -> bool {
    b == 43 || b == 45 || b == 58 || b == 36 || b == 42 || b == 95 || b == 35
}

/// Text split at runs of white space, empty words left out
/// (`str::split_whitespace`); `cur` is the word read so far.
pub open spec fn words_from(s: Seq<char>, cur: Seq<char>) -> Seq<Seq<char>>
    decreases s.len(),
{
    if s.len() == 0 {
        if cur.len() > 0 { seq![cur] } else { Seq::empty() }
    } else if is_whitespace(s[0]) {
        (if cur.len() > 0 { seq![cur] } else { Seq::empty() }) + words_from(s.drop_first(), Seq::empty())
    } else {
        words_from(s.drop_first(), cur.push(s[0]))
    }
}

pub open spec fn words(s: Seq<char>) -> Seq<Seq<char>> {
    words_from(s, Seq::empty())
}

pub open spec fn bulk_strings(ws: Seq<Seq<char>>) -> Seq<RespValue> {
    ws.map_values(|w: Seq<char>| RespValue::BulkString(w))
}

/// The length announced by a `$` or `*` header.
pub open spec fn header_count(d: Seq<u8>) -> Result<nat, Seq<char>> {
    if !valid_utf8(d) {
        Err("Invalid UTF-8 string."@)
    } else {
        match parse_usize(decode_utf8(d)) {
            Some(n) => Ok(n as nat),
            None => Err("Invalid value for an integer."@),
        }
    }
}

pub open spec fn spec_simple(buf: Seq<u8>) -> Result<(RespValue, int), ParseFailure> {
    match crlf_from(buf, 1) {
        None => Err(ParseFailure::Incomplete),
        Some(i) => {
            let d = buf.subrange(1, i);
            if valid_utf8(d) {
                Ok((RespValue::SimpleString(decode_utf8(d)), i + 2))
            } else {
                Err(ParseFailure::Invalid("Simple string value is not a valid utf8 string."@))
            }
        },
    }
}

pub open spec fn spec_integer(buf: Seq<u8>) -> Result<(RespValue, int), ParseFailure> {
    match crlf_from(buf, 1) {
        None => Err(ParseFailure::Incomplete),
        Some(i) => {
            let d = buf.subrange(1, i);
            if !valid_utf8(d) {
                Err(ParseFailure::Invalid("Integer value is not valid."@))
            } else {
                match parse_i64(decode_utf8(d)) {
                    Some(v) => Ok((RespValue::Integer(v), i + 2)),
                    None => Err(ParseFailure::Invalid("Invalid integer value."@)),
                }
            }
        },
    }
}

pub open spec fn spec_bulk(buf: Seq<u8>) -> Result<(RespValue, int), ParseFailure> {
    match crlf_from(buf, 1) {
        None => Err(ParseFailure::Incomplete),
        Some(i) => match header_count(buf.subrange(1, i)) {
            Err(m) => Err(ParseFailure::Invalid(m)),
            Ok(n) => {
                let start = i + 2;
                let end = start + n;
                if end + 2 > buf.len() {
                    Err(ParseFailure::Incomplete)
                } else if buf[end] != 13 || buf[end + 1] != 10 {
                    Err(ParseFailure::Invalid("Missing CRLF after bulk string"@))
                } else if !valid_utf8(buf.subrange(start, end)) {
                    Err(ParseFailure::Invalid("Invalid UTF-8"@))
                } else {
                    Ok((RespValue::BulkString(decode_utf8(buf.subrange(start, end))), end + 2))
                }
            },
        },
    }
}

pub open spec fn spec_null(buf: Seq<u8>) -> Result<(RespValue, int), ParseFailure> {
    match crlf_from(buf, 1) {
        None => Err(ParseFailure::Incomplete),
        Some(i) => Ok((RespValue::Null, i + 2)),
    }
}

pub open spec fn spec_bool(buf: Seq<u8>) -> Result<(RespValue, int), ParseFailure> {
    match crlf_from(buf, 1) {
        None => Err(ParseFailure::Incomplete),
        Some(i) => {
            let d = buf.subrange(1, i);
            if !valid_utf8(d) {
                Err(ParseFailure::Invalid("Invalid value for boolean."@))
            } else if decode_utf8(d) == "t"@ {
                Ok((RespValue::Boolean(true), i + 2))
            } else if decode_utf8(d) == "f"@ {
                Ok((RespValue::Boolean(false), i + 2))
            } else {
                Err(ParseFailure::Invalid("Invalid value for boolean. Only \"t\" or \"f\" is accepted."@))
            }
        },
    }
}

pub open spec fn spec_inline(buf: Seq<u8>) -> Result<(RespValue, int), ParseFailure> {
    match crlf_from(buf, 0) {
        None => Err(ParseFailure::Incomplete),
        Some(i) => {
            let d = buf.subrange(0, i);
            if !valid_utf8(d) {
                Err(ParseFailure::Invalid("Invalid inline command"@))
            } else {
                Ok((RespValue::Array(bulk_strings(words(decode_utf8(d)))), i + 2))
            }
        },
    }
}

/// What `Parser::parse` gives for `buf`: the first value in it and the
/// number of bytes it takes, or why there is none.
pub open spec fn spec_parse(buf: Seq<u8>) -> Result<(RespValue, int), ParseFailure>
    decreases buf.len(), 0int, 0int,
{
    if buf.len() == 0 {
        Err(ParseFailure::Incomplete)
    } else if !is_type_byte(buf[0]) {
        spec_inline(buf)
    } else if buf[0] == 43 || buf[0] == 45 {
        spec_simple(buf)
    } else if buf[0] == 58 {
        spec_integer(buf)
    } else if buf[0] == 36 {
        spec_bulk(buf)
    } else if buf[0] == 95 {
        spec_null(buf)
    } else if buf[0] == 35 {
        spec_bool(buf)
    } else {
        proof {
            lemma_crlf_from(buf, 1);
        }
        match crlf_from(buf, 1) {
            None => Err(ParseFailure::Incomplete),
            Some(i) => match header_count(buf.subrange(1, i)) {
                Err(m) => Err(ParseFailure::Invalid(m)),
                Ok(n) => match spec_parse_items(buf, i + 2, n) {
                    Ok((items, end)) => Ok((RespValue::Array(items), end)),
                    Err(e) => Err(e),
                },
            },
        }
    }
}

/// `n` values parsed one after the other from `buf[pos..]`, with the
/// position after the last.
pub open spec fn spec_parse_items(buf: Seq<u8>, pos: int, n: nat) -> Result<
    (Seq<RespValue>, int),
    ParseFailure,
>
    decreases buf.len() - pos, 1int, n,
{
    if pos < 0 || pos > buf.len() {
        Err(ParseFailure::Incomplete)
    } else if n == 0 {
        Ok((Seq::empty(), pos))
    } else {
        match spec_parse(buf.subrange(pos, buf.len() as int)) {
            Err(e) => Err(e),
            Ok((v, k)) => if 0 <= k <= buf.len() - pos {
                match spec_parse_items(buf, pos + k, (n - 1) as nat) {
                    Ok((vs, end)) => Ok((seq![v] + vs, end)),
                    Err(e) => Err(e),
                }
            } else {
                Err(ParseFailure::Incomplete)
            },
        }
    }
}

/// An executable parse result, read as a mathematical one.
pub open spec fn outcome(r: Result<(RespType, usize), ParseError>) -> Result<(RespValue, int), ParseFailure> {
    match r {
        Ok((v, n)) => Ok((v.value(), n as int)),
        Err(ParseError::Incomplete) => Err(ParseFailure::Incomplete),
        Err(ParseError::Invalid(m)) => Err(ParseFailure::Invalid(m@)),
    }
}


proof fn lemma_words_step(s: Seq<char>, j: int, start: int)
    requires
        0 <= start <= j < s.len(),
    ensures
        words_from(s.subrange(j, s.len() as int), s.subrange(start, j)) == if is_whitespace(s[j]) {
            (if j > start { seq![s.subrange(start, j)] } else { Seq::<Seq<char>>::empty() })
                + words_from(s.subrange(j + 1, s.len() as int), s.subrange(j + 1, j + 1))
        } else {
            words_from(s.subrange(j + 1, s.len() as int), s.subrange(start, j + 1))
        },
{
    let t = s.subrange(j, s.len() as int);
    assert(t.drop_first() =~= s.subrange(j + 1, s.len() as int));
    assert(s.subrange(start, j).push(s[j]) =~= s.subrange(start, j + 1));
    assert(s.subrange(j + 1, j + 1) =~= Seq::<char>::empty());
}

impl Parser {
    /// Parses the first value in `buf`; gives it with the number of bytes it
    /// takes.
    pub fn parse(buf: &[u8]) -> (res: Result<(RespType, usize), ParseError>)
        ensures
            outcome(res) == spec_parse(buf@),
            res matches Ok((_, n)) ==> 0 < n <= buf@.len(),
        decreases buf@.len(), 1int,
    {
        if buf.len() == 0 {
            return Err(ParseError::Incomplete);
        }
        if Self::is_inline(buf) {
            return Self::parse_inline(buf);
        }
        let t = buf[0];
        if t == 43 || t == 45 {
            Self::parse_simple(buf)
        } else if t == 58 {
            Self::parse_integer(buf)
        } else if t == 36 {
            Self::parse_bulk_string(buf)
        } else if t == 42 {
            Self::parse_array(buf)
        } else if t == 95 {
            Self::parse_null(buf)
        } else {
            Self::parse_bool(buf)
        }
    }

    /// `+<text>\r\n` or `-<text>\r\n`; both give a simple string.
    fn parse_simple(buf: &[u8]) -> (res: Result<(RespType, usize), ParseError>)
        requires
            buf@.len() > 0,
        ensures
            outcome(res) == spec_simple(buf@),
            res matches Ok((_, n)) ==> 0 < n <= buf@.len(),
    {
        match Self::read_until_crlf(buf, 1) {
            Some(i) => {
                match utf8_to_string(slice_subrange(buf, 1, i)) {
                    Some(text) => Ok((RespType::SimpleString(text), i + 2)),
                    None => Err(
                        ParseError::Invalid(
                            String::from_str("Simple string value is not a valid utf8 string."),
                        ),
                    ),
                }
            },
            None => Err(ParseError::Incomplete),
        }
    }

    /// `:[+|-]<digits>\r\n`.
    fn parse_integer(buf: &[u8]) -> (res: Result<(RespType, usize), ParseError>)
        requires
            buf@.len() > 0,
        ensures
            outcome(res) == spec_integer(buf@),
            res matches Ok((_, n)) ==> 0 < n <= buf@.len(),
    {
        match Self::read_until_crlf(buf, 1) {
            Some(i) => {
                match utf8_to_string(slice_subrange(buf, 1, i)) {
                    Some(text) => {
                        let chars = chars_of(text.as_str());
                        assert(chars@.subrange(0, chars@.len() as int) =~= chars@);
                        match parse_i64_chars(&chars, 0, chars.len()) {
                            Some(v) => Ok((RespType::Integer(v), i + 2)),
                            None => Err(ParseError::Invalid(String::from_str("Invalid integer value."))),
                        }
                    },
                    None => Err(ParseError::Invalid(String::from_str("Integer value is not valid."))),
                }
            },
            None => Err(ParseError::Incomplete),
        }
    }

    /// `$<length>\r\n<data>\r\n`.
    fn parse_bulk_string(buf: &[u8]) -> (res: Result<(RespType, usize), ParseError>)
        requires
            buf@.len() > 0,
        ensures
            outcome(res) == spec_bulk(buf@),
            res matches Ok((_, n)) ==> 0 < n <= buf@.len(),
    {
        let i = match Self::read_until_crlf(buf, 1) {
            Some(i) => i,
            None => return Err(ParseError::Incomplete),
        };
        let n = match Self::parse_usize_from_buf(slice_subrange(buf, 1, i)) {
            Ok(n) => n,
            Err(e) => return Err(e),
        };
        let start = i + 2;
        if n > buf.len() - start || buf.len() - start - n < 2 {
            return Err(ParseError::Incomplete);
        }
        let end = start + n;
        if buf[end] != 13 || buf[end + 1] != 10 {
            return Err(ParseError::Invalid(String::from_str("Missing CRLF after bulk string")));
        }
        match utf8_to_string(slice_subrange(buf, start, end)) {
            Some(text) => Ok((RespType::BulkString(text), end + 2)),
            None => Err(ParseError::Invalid(String::from_str("Invalid UTF-8"))),
        }
    }

    /// `*<count>\r\n<value>...<value>`.
    fn parse_array(buf: &[u8]) -> (res: Result<(RespType, usize), ParseError>)
        requires
            buf@.len() > 0,
            buf@[0] == 42,
        ensures
            outcome(res) == spec_parse(buf@),
            res matches Ok((_, n)) ==> 0 < n <= buf@.len(),
        decreases buf@.len(), 0int,
    {
        proof {
            lemma_crlf_from(buf@, 1);
        }
        let i = match Self::read_until_crlf(buf, 1) {
            Some(i) => i,
            None => return Err(ParseError::Incomplete),
        };
        let n = match Self::parse_usize_from_buf(slice_subrange(buf, 1, i)) {
            Ok(n) => n,
            Err(e) => return Err(e),
        };
        let mut arr: Vec<RespType> = Vec::new();
        let mut consumed = i + 2;
        let mut k: usize = 0;
        proof {
            lemma_values_of(arr@);
            assert(values_of(arr@) =~= Seq::<RespValue>::empty());
        }
        while k < n
            invariant
                k <= n,
                i + 2 <= consumed <= buf@.len(),
                values_of(arr@).len() == arr@.len(),
                header_count(buf@.subrange(1, i as int)) == Ok::<nat, Seq<char>>(n as nat),
                crlf_from(buf@, 1) == Some(i as int),
                buf@.len() > 0,
                buf@[0] == 42,
                spec_parse(buf@) == match spec_parse_items(buf@, consumed as int, (n - k) as nat) {
                    Ok((items, end)) => Ok((RespValue::Array(values_of(arr@) + items), end)),
                    Err(e) => Err::<(RespValue, int), ParseFailure>(e),
                },
            decreases n - k,
        {
            let rest = slice_subrange(buf, consumed, buf.len());
            let r = Self::parse(rest);
            match r {
                Ok((el, used)) => {
                    let ghost prev = values_of(arr@);
                    let ghost old_arr = arr@;
                    let ghost el_v = el.value();
                    arr.push(el);
                    proof {
                        assert(arr@.subrange(0, old_arr.len() as int) =~= old_arr);
                        lemma_values_of(arr@);
                        assert(values_of(arr@) =~= prev.push(el_v));
                        match spec_parse_items(buf@, consumed + used, (n - k - 1) as nat) {
                            Ok((items, end)) => {
                                assert(prev + (seq![el_v] + items) =~= values_of(arr@) + items);
                            },
                            Err(e) => {},
                        }
                    }
                    consumed = consumed + used;
                    k = k + 1;
                },
                Err(e) => {
                    return Err(e);
                },
            }
        }
        assert(values_of(arr@) + Seq::<RespValue>::empty() =~= values_of(arr@));
        Ok((RespType::Array(arr), consumed))
    }

    /// `_<anything>\r\n`.
    fn parse_null(buf: &[u8]) -> (res: Result<(RespType, usize), ParseError>)
        requires
            buf@.len() > 0,
        ensures
            outcome(res) == spec_null(buf@),
            res matches Ok((_, n)) ==> 0 < n <= buf@.len(),
    {
        match Self::read_until_crlf(buf, 1) {
            Some(i) => Ok((RespType::Null, i + 2)),
            None => Err(ParseError::Incomplete),
        }
    }

    /// `#t\r\n` or `#f\r\n`.
    fn parse_bool(buf: &[u8]) -> (res: Result<(RespType, usize), ParseError>)
        requires
            buf@.len() > 0,
        ensures
            outcome(res) == spec_bool(buf@),
            res matches Ok((_, n)) ==> 0 < n <= buf@.len(),
    {
        match Self::read_until_crlf(buf, 1) {
            Some(i) => {
                match utf8_to_string(slice_subrange(buf, 1, i)) {
                    Some(text) => {
                        if str_eq(text.as_str(), "t") {
                            Ok((RespType::Boolean(true), i + 2))
                        } else if str_eq(text.as_str(), "f") {
                            Ok((RespType::Boolean(false), i + 2))
                        } else {
                            Err(
                                ParseError::Invalid(
                                    String::from_str(
                                        "Invalid value for boolean. Only \"t\" or \"f\" is accepted.",
                                    ),
                                ),
                            )
                        }
                    },
                    None => Err(ParseError::Invalid(String::from_str("Invalid value for boolean."))),
                }
            },
            None => Err(ParseError::Incomplete),
        }
    }

    /// Position of the first `\r\n` in `buf` at or after `from`.
    fn read_until_crlf(buf: &[u8], from: usize) -> (r: Option<usize>)
        ensures
            match r {
                Some(i) => crlf_from(buf@, from as int) == Some(i as int),
                None => crlf_from(buf@, from as int) is None,
            },
            r matches Some(i) ==> from <= i && i + 2 <= buf@.len() && i + 2 <= usize::MAX,
    {
        proof {
            lemma_crlf_from(buf@, from as int);
        }
        let mut i = from;
        while i < buf.len() && buf.len() - i > 1
            invariant
                from <= i,
                crlf_from(buf@, from as int) == crlf_from(buf@, i as int),
            decreases buf@.len() - i,
        {
            if buf[i] == 13 && buf[i + 1] == 10 {
                return Some(i);
            }
            i = i + 1;
        }
        None
    }

    /// The number in a `$` or `*` header.
    fn parse_usize_from_buf(buf: &[u8]) -> (r: Result<usize, ParseError>)
        ensures
            match header_count(buf@) {
                Ok(n) => r == Ok::<usize, ParseError>(n as usize) && n <= usize::MAX,
                Err(m) => r matches Err(ParseError::Invalid(msg)) && msg@ == m,
            },
    {
        match utf8_to_string(buf) {
            Some(text) => {
                let chars = chars_of(text.as_str());
                assert(chars@.subrange(0, chars@.len() as int) =~= chars@);
                match parse_usize_chars(&chars, 0, chars.len()) {
                    Some(n) => Ok(n),
                    None => Err(ParseError::Invalid(String::from_str("Invalid value for an integer."))),
                }
            },
            None => Err(ParseError::Invalid(String::from_str("Invalid UTF-8 string."))),
        }
    }

    /// A line of words separated by white space, read as an array of bulk
    /// strings (the legacy inline command form).
    fn parse_inline(buf: &[u8]) -> (res: Result<(RespType, usize), ParseError>)
        ensures
            outcome(res) == spec_inline(buf@),
            res matches Ok((_, n)) ==> 0 < n <= buf@.len(),
    {
        let i = match Self::read_until_crlf(buf, 0) {
            Some(i) => i,
            None => return Err(ParseError::Incomplete),
        };
        let line = match utf8_to_string(slice_subrange(buf, 0, i)) {
            Some(line) => line,
            None => return Err(ParseError::Invalid(String::from_str("Invalid inline command"))),
        };
        let chars = chars_of(line.as_str());
        let ghost s = chars@;
        let n = chars.len();
        let mut parts: Vec<RespType> = Vec::new();
        let ghost mut done: Seq<Seq<char>> = Seq::empty();
        let mut start: usize = 0;
        let mut j: usize = 0;
        assert(s.subrange(0, n as int) =~= s);
        assert(s.subrange(0, 0) =~= Seq::<char>::empty());
        while j < n
            invariant
                s == chars@,
                s == line@,
                n == s.len(),
                start <= j <= n,
                parts@.len() == done.len(),
                forall|k: int| 0 <= k < done.len() ==> #[trigger] parts@[k].value() == RespValue::BulkString(done[k]),
                done + words_from(s.subrange(j as int, n as int), s.subrange(start as int, j as int)) == words(s),
            decreases n - j,
        {
            proof {
                lemma_words_step(s, j as int, start as int);
            }
            if is_whitespace_char(chars[j]) {
                if j > start {
                    let word = line.as_str().substring_char(start, j);
                    parts.push(RespType::BulkString(String::from_str(word)));
                    proof {
                        let w = s.subrange(start as int, j as int);
                        let rest = words_from(s.subrange(j + 1, n as int), s.subrange(j + 1, j + 1));
                        assert(done + (seq![w] + rest) =~= done.push(w) + rest);
                        done = done.push(w);
                    }
                } else {
                    proof {
                        let rest = words_from(s.subrange(j + 1, n as int), s.subrange(j + 1, j + 1));
                        assert(Seq::<Seq<char>>::empty() + rest =~= rest);
                    }
                }
                start = j + 1;
            }
            j = j + 1;
        }
        if j > start {
            let word = line.as_str().substring_char(start, j);
            parts.push(RespType::BulkString(String::from_str(word)));
            proof {
                let w = s.subrange(start as int, j as int);
                assert(s.subrange(j as int, n as int) =~= Seq::<char>::empty());
                done = done.push(w);
            }
        } else {
            assert(s.subrange(j as int, n as int) =~= Seq::<char>::empty());
            assert(done + Seq::<Seq<char>>::empty() =~= done);
        }
        proof {
            lemma_values_of(parts@);
            assert(values_of(parts@) =~= bulk_strings(words(decode_utf8(buf@.subrange(0, i as int)))));
        }
        Ok((RespType::Array(parts), i + 2))
    }

    fn is_inline(buf: &[u8]) -> (r: bool)
        requires
            buf@.len() > 0,
        ensures
            r == !is_type_byte(buf@[0]),
    {
        let t = buf[0];
        !(t == 43 || t == 45 || t == 58 || t == 36 || t == 42 || t == 95 || t == 35)
    }
}

// ---------------------------------------------------------------------------
// Laws of the parser
// ---------------------------------------------------------------------------

/// `b` and `c` hold the same first `n` bytes.
pub open spec fn agree(b: Seq<u8>, c: Seq<u8>, n: int) -> bool {
    &&& 0 <= n <= b.len()
    &&& n <= c.len()
    &&& forall|i: int| 0 <= i < n ==> #[trigger] b[i] == c[i]
}

proof fn lemma_agree_sub(b: Seq<u8>, c: Seq<u8>, n: int, lo: int, hi: int)
    requires
        agree(b, c, n),
        0 <= lo <= hi <= n,
    ensures
        b.subrange(lo, hi) == c.subrange(lo, hi),
{
    assert(b.subrange(lo, hi) =~= c.subrange(lo, hi));
}

/// The first `\r\n` from `j` on is found the same in `c`, when `c` agrees
/// with `b` up to its end.
proof fn lemma_crlf_agree(b: Seq<u8>, c: Seq<u8>, j: int, i: int)
    requires
        crlf_from(b, j) == Some(i),
        agree(b, c, i + 2),
    ensures
        crlf_from(c, j) == Some(i),
    decreases i - j,
{
    lemma_crlf_from(b, j);
    if j < i {
        assert(b[j] == c[j] && b[j + 1] == c[j + 1]);
        lemma_crlf_from(b, j + 1);
        lemma_crlf_agree(b, c, j + 1, i);
    } else {
        assert(b[j] == c[j] && b[j + 1] == c[j + 1]);
    }
}

/// A value that parses takes at least one byte and no more than there are;
/// `k` values parsed from `pos` end within the buffer.
pub proof fn lemma_parse_bounds(b: Seq<u8>)
    ensures
        spec_parse(b) matches Ok((v, n)) ==> 0 < n <= b.len(),
    decreases b.len(), 0int, 0int,
{
    if b.len() > 0 {
        lemma_crlf_from(b, 0);
        lemma_crlf_from(b, 1);
        if b[0] == 42 {
            match crlf_from(b, 1) {
                Some(i) => match header_count(b.subrange(1, i)) {
                    Ok(k) => lemma_items_bounds(b, i + 2, k),
                    Err(_) => {},
                },
                None => {},
            }
        }
    }
}

pub proof fn lemma_items_bounds(b: Seq<u8>, pos: int, k: nat)
    ensures
        0 <= pos <= b.len() ==> (spec_parse_items(b, pos, k) matches Ok((vs, end)) ==> pos <= end <= b.len()
            && vs.len() == k),
    decreases b.len() - pos, 1int, k,
{
    if 0 <= pos <= b.len() && k > 0 {
        let rest = b.subrange(pos, b.len() as int);
        lemma_parse_bounds(rest);
        match spec_parse(rest) {
            Ok((v, m)) => {
                if 0 <= m <= b.len() - pos {
                    lemma_items_bounds(b, pos + m, (k - 1) as nat);
                }
            },
            Err(_) => {},
        }
    }
}

/// **A complete value parses the same whatever follows it**: when `b`
/// parses to `v` in `n` bytes, any `c` that starts with the same `n` bytes
/// parses to `v` in `n` bytes too. (So pipelined requests can be read one
/// after the other, and a value reads the same alone.)
pub proof fn law_parse_prefix(b: Seq<u8>, c: Seq<u8>)
    requires
        spec_parse(b) is Ok,
        agree(b, c, spec_parse(b)->Ok_0.1),
    ensures
        spec_parse(c) == spec_parse(b),
    decreases b.len(), 0int, 0int,
{
    let n = spec_parse(b)->Ok_0.1;
    lemma_parse_bounds(b);
    lemma_crlf_from(b, 0);
    lemma_crlf_from(b, 1);
    assert(b[0] == c[0]);
    if !is_type_byte(b[0]) {
        let i = crlf_from(b, 0)->Some_0;
        lemma_crlf_agree(b, c, 0, i);
        lemma_agree_sub(b, c, n, 0, i);
    } else if b[0] == 42 {
        let i = crlf_from(b, 1)->Some_0;
        let k = header_count(b.subrange(1, i))->Ok_0;
        lemma_items_bounds(b, i + 2, k);
        assert(n == spec_parse_items(b, i + 2, k)->Ok_0.1);
        lemma_crlf_agree(b, c, 1, i);
        lemma_agree_sub(b, c, n, 1, i);
        lemma_items_prefix(b, c, i + 2, k, n);
    } else if b[0] == 36 {
        let i = crlf_from(b, 1)->Some_0;
        lemma_crlf_agree(b, c, 1, i);
        lemma_agree_sub(b, c, n, 1, i);
        let k = header_count(b.subrange(1, i))->Ok_0;
        let start = i + 2;
        let end = start + k;
        assert(b[end] == c[end] && b[end + 1] == c[end + 1]);
        lemma_agree_sub(b, c, n, start, end);
    } else {
        let i = crlf_from(b, 1)->Some_0;
        if b[0] == 43 || b[0] == 45 {
            assert(spec_parse(b) == spec_simple(b));
        } else if b[0] == 58 {
            assert(spec_parse(b) == spec_integer(b));
        } else if b[0] == 95 {
            assert(spec_parse(b) == spec_null(b));
        } else {
            assert(spec_parse(b) == spec_bool(b));
        }
        assert(n == i + 2);
        lemma_crlf_agree(b, c, 1, i);
        lemma_agree_sub(b, c, n, 1, i);
    }
}

proof fn lemma_items_prefix(b: Seq<u8>, c: Seq<u8>, pos: int, k: nat, n: int)
    requires
        0 <= pos <= b.len(),
        spec_parse_items(b, pos, k) is Ok,
        n == spec_parse_items(b, pos, k)->Ok_0.1,
        agree(b, c, n),
    ensures
        spec_parse_items(c, pos, k) == spec_parse_items(b, pos, k),
    decreases b.len() - pos, 1int, k,
{
    lemma_items_bounds(b, pos, k);
    if k > 0 {
        let rb = b.subrange(pos, b.len() as int);
        let rc = c.subrange(pos, c.len() as int);
        let m = spec_parse(rb)->Ok_0.1;
        lemma_parse_bounds(rb);
        lemma_items_bounds(b, pos + m, (k - 1) as nat);
        assert(agree(rb, rc, m)) by {
            assert forall|i: int| 0 <= i < m implies #[trigger] rb[i] == rc[i] by {
                assert(rb[i] == b[pos + i]);
                assert(rc[i] == c[pos + i]);
            }
        }
        law_parse_prefix(rb, rc);
        lemma_items_prefix(b, c, pos + m, (k - 1) as nat, n);
    }
}

/// A value reads the same with anything after it, and alone.
pub proof fn law_parse_extended(b: Seq<u8>, extra: Seq<u8>)
    requires
        spec_parse(b) is Ok,
    ensures
        spec_parse(b + extra) == spec_parse(b),
        spec_parse(b.subrange(0, spec_parse(b)->Ok_0.1)) == spec_parse(b),
{
    lemma_parse_bounds(b);
    let n = spec_parse(b)->Ok_0.1;
    assert(agree(b, b + extra, n));
    law_parse_prefix(b, b + extra);
    assert(agree(b, b.subrange(0, n), n));
    law_parse_prefix(b, b.subrange(0, n));
}

} // verus!
