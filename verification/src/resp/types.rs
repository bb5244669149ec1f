//! Values of the REdis Serialization Protocol (RESP) and their wire form.
use vstd::prelude::*;
use vstd::utf8::*;
use crate::utils::text::{append_int, append_nat, int_text, nat_text};

verus! {

/// A value of the RESP wire protocol.
#[derive(Debug, PartialEq)]
pub enum RespType {
    SimpleString(String),
    SimpleError(String),
    Integer(i64),
    BulkString(String),
    Array(Vec<RespType>),
    Null,
    Boolean(bool),
}

/// The mathematical value a `RespType` stands for: strings are taken by
/// their characters.
pub enum RespValue {
    SimpleString(Seq<char>),
    SimpleError(Seq<char>),
    Integer(i64),
    BulkString(Seq<char>),
    Array(Seq<RespValue>),
    Null,
    Boolean(bool),
}

impl RespType {
    pub open spec fn value(self) -> RespValue
        decreases self,
    {
        match self {
            RespType::SimpleString(s) => RespValue::SimpleString(s@),
            RespType::SimpleError(s) => RespValue::SimpleError(s@),
            RespType::Integer(i) => RespValue::Integer(i),
            RespType::BulkString(s) => RespValue::BulkString(s@),
            RespType::Array(v) => RespValue::Array(values_of(v@)),
            RespType::Null => RespValue::Null,
            RespType::Boolean(b) => RespValue::Boolean(b),
        }
    }
}

/// The values of a sequence of `RespType`s, element by element.
pub open spec fn values_of(s: Seq<RespType>) -> Seq<RespValue>
    decreases s,
{
    if s.len() == 0 {
        Seq::empty()
    } else {
        values_of(s.subrange(0, s.len() - 1)).push(s[s.len() - 1].value())
    }
}

pub proof fn lemma_values_of(s: Seq<RespType>)
    ensures
        values_of(s).len() == s.len(),
        forall|i: int| 0 <= i < s.len() ==> #[trigger] values_of(s)[i] == s[i].value(),
    decreases s.len(),
{
    if s.len() > 0 {
        lemma_values_of(s.subrange(0, s.len() - 1));
    }
}

pub open spec fn crlf() -> Seq<char> {
    seq!['\r', '\n']
}

/// The RESP text of a value.
pub open spec fn resp_text(v: RespValue) -> Seq<char>
    decreases v,
{
    match v {
        RespValue::SimpleString(s) => seq!['+'] + s + crlf(),
        RespValue::SimpleError(s) => seq!['-'] + s + crlf(),
        RespValue::Integer(i) => seq![':'] + int_text(i as int) + crlf(),
        RespValue::BulkString(s) => seq!['$'] + nat_text(encode_utf8(s).len()) + crlf() + s
            + crlf(),
        RespValue::Array(items) => seq!['*'] + nat_text(items.len()) + crlf() + items_text(items),
        RespValue::Null => seq!['_'] + crlf(),
        RespValue::Boolean(b) => seq!['#', if b { 't' } else { 'f' }] + crlf(),
    }
}

/// The RESP texts of a sequence of values, one after the other.
pub open spec fn items_text(items: Seq<RespValue>) -> Seq<char>
    decreases items,
{
    if items.len() == 0 {
        Seq::empty()
    } else {
        items_text(items.subrange(0, items.len() - 1)) + resp_text(items[items.len() - 1])
    }
}

/// The bytes of the RESP encoding of a value.
pub open spec fn resp_bytes(v: RespValue) -> Seq<u8> {
    encode_utf8(resp_text(v))
}


proof fn lemma_items_text_step(items: Seq<RespValue>, i: int)
    requires
        0 <= i < items.len(),
    ensures
        items_text(items.subrange(0, i + 1)) == items_text(items.subrange(0, i)) + resp_text(
            items[i],
        ),
{
    let t = items.subrange(0, i + 1);
    assert(t.subrange(0, i) =~= items.subrange(0, i));
}

impl RespType {
    /// The RESP text of this value.
    pub fn to_string(&self) -> (r: String)
        ensures
            r@ == resp_text(self.value()),
    {
        let mut out = String::new();
        self.append_text(&mut out);
        out
    }

    fn append_text(&self, out: &mut String)
        ensures
            final(out)@ == old(out)@ + resp_text(self.value()),
        decreases self,
    {
        broadcast use vstd::std_specs::vec::group_vec_axioms;
        proof {
            reveal_strlit("+");
            reveal_strlit("-");
            reveal_strlit(":");
            reveal_strlit("$");
            reveal_strlit("*");
            reveal_strlit("_\r\n");
            reveal_strlit("#t\r\n");
            reveal_strlit("#f\r\n");
            reveal_strlit("\r\n");
        }
        match self {
            RespType::SimpleString(ss) => {
                out.append("+");
                out.append(ss.as_str());
                out.append("\r\n");
                assert(out@ =~= old(out)@ + resp_text(self.value()));
            },
            RespType::SimpleError(se) => {
                out.append("-");
                out.append(se.as_str());
                out.append("\r\n");
                assert(out@ =~= old(out)@ + resp_text(self.value()));
            },
            RespType::Integer(n) => {
                out.append(":");
                append_int(out, *n);
                out.append("\r\n");
                assert(out@ =~= old(out)@ + resp_text(self.value()));
            },
            RespType::BulkString(bs) => {
                out.append("$");
                let n = bs.as_str().as_bytes().len();
                append_nat(out, n as u64);
                out.append("\r\n");
                out.append(bs.as_str());
                out.append("\r\n");
                assert(out@ =~= old(out)@ + resp_text(self.value()));
            },
            RespType::Array(arr) => {
                let ghost start = old(out)@;
                out.append("*");
                append_nat(out, arr.len() as u64);
                out.append("\r\n");
                let ghost head = out@;
                proof {
                    assert(decreases_to!(self => self->Array_0));
                    assert forall|j: int| 0 <= j < arr@.len() implies decreases_to!(self => #[trigger] arr@[j]) by {
                        assert(decreases_to!(arr => arr[j]));
                    }
                    lemma_values_of(arr@);
                    assert(values_of(arr@).subrange(0, 0) =~= Seq::<RespValue>::empty());
                }
                let mut i: usize = 0;
                while i < arr.len()
                    invariant
                        i <= arr@.len(),
                        values_of(arr@).len() == arr@.len(),
                        forall|j: int| 0 <= j < arr@.len() ==> #[trigger] values_of(arr@)[j] == arr@[j].value(),
                        out@ == head + items_text(values_of(arr@).subrange(0, i as int)),
                        forall|j: int| 0 <= j < arr@.len() ==> decreases_to!(self => #[trigger] arr@[j]),
                    decreases arr@.len() - i,
                {
                    arr[i].append_text(out);
                    proof {
                        lemma_items_text_step(values_of(arr@), i as int);
                    }
                    i = i + 1;
                }
                assert(values_of(arr@).subrange(0, arr@.len() as int) =~= values_of(arr@));
                assert(out@ =~= old(out)@ + resp_text(self.value()));
            },
            RespType::Null => {
                out.append("_\r\n");
                assert(out@ =~= old(out)@ + resp_text(self.value()));
            },
            RespType::Boolean(b) => {
                if *b {
                    out.append("#t\r\n");
                } else {
                    out.append("#f\r\n");
                }
                assert(out@ =~= old(out)@ + resp_text(self.value()));
            },
        }
    }
}


/// UTF-8 encoding distributes over concatenation.
pub proof fn lemma_encode_concat(a: Seq<char>, b: Seq<char>)
    ensures
        encode_utf8(a + b) == encode_utf8(a) + encode_utf8(b),
    decreases a.len(),
{
    if a.len() == 0 {
        assert(a + b =~= b);
    } else {
        lemma_encode_concat(a.drop_first(), b);
        assert((a + b).drop_first() =~= a.drop_first() + b);
        assert(encode_utf8(a + b) =~= encode_utf8(a) + encode_utf8(b));
    }
}

/// Appends the UTF-8 bytes of `s`.
pub fn push_str(w: &mut Vec<u8>, s: &str)
    ensures
        final(w)@ == old(w)@ + encode_utf8(s@),
{
    let b = s.as_bytes();
    let mut i: usize = 0;
    while i < b.len()
        invariant
            i <= b@.len(),
            b@ == encode_utf8(s@),
            w@ == old(w)@ + b@.subrange(0, i as int),
        decreases b@.len() - i,
    {
        w.push(b[i]);
        i = i + 1;
        assert(w@ =~= old(w)@ + b@.subrange(0, i as int));
    }
    assert(b@.subrange(0, i as int) =~= b@);
}

/// `itoa::Buffer::format`: the decimal text of `n`, as `Display` writes it.
#[verifier::external_body]
fn itoa_text(n: i128) -> (r: String)
    ensures
        r@ == int_text(n as int),
{
    let mut buf = itoa::Buffer::new();
    buf.format(n).to_owned()
}

#[verifier::external_type_specification]
#[verifier::external_body]
pub struct ExBytes(bytes::Bytes);

/// The bytes that a `bytes::Bytes` holds.
pub uninterp spec fn bytes_content(b: bytes::Bytes) -> Seq<u8>;

/// `Bytes::from(Vec<u8>)`: takes over the vector's bytes.
#[verifier::external_body]
fn bytes_from_vec(v: Vec<u8>) -> (b: bytes::Bytes)
    ensures
        bytes_content(b) == v@,
{
    bytes::Bytes::from(v)
}

fn write_simple_string(ss: &String, w: &mut Vec<u8>)
    ensures
        final(w)@ == old(w)@ + resp_bytes(RespValue::SimpleString(ss@)),
{
    proof {
        reveal_strlit("+");
        reveal_strlit("\r\n");
        reveal_strlit("Ok");
        reveal_strlit("Pong");
        reveal_strlit("QUEUED");
        reveal_strlit("+Ok\r\n");
        reveal_strlit("+Pong\r\n");
        reveal_strlit("+QUEUED\r\n");
    }
    let ghost text = resp_text(RespValue::SimpleString(ss@));
    if crate::utils::text::str_eq(ss.as_str(), "Ok") {
        push_str(w, "+Ok\r\n");
        assert("+Ok\r\n"@ =~= text);
        return;
    }
    if crate::utils::text::str_eq(ss.as_str(), "Pong") {
        push_str(w, "+Pong\r\n");
        assert("+Pong\r\n"@ =~= text);
        return;
    }
    if crate::utils::text::str_eq(ss.as_str(), "QUEUED") {
        push_str(w, "+QUEUED\r\n");
        assert("+QUEUED\r\n"@ =~= text);
        return;
    }
    push_str(w, "+");
    push_str(w, ss.as_str());
    push_str(w, "\r\n");
    proof {
        lemma_encode_concat("+"@, ss@);
        lemma_encode_concat("+"@ + ss@, "\r\n"@);
        assert("+"@ + ss@ + "\r\n"@ =~= text);
    }
    assert(w@ =~= old(w)@ + resp_bytes(RespValue::SimpleString(ss@)));
}

impl RespType {
    /// The RESP encoding of this value as `Bytes`.
    pub fn to_bytes(&self) -> (r: bytes::Bytes)
        ensures
            bytes_content(r) == resp_bytes(self.value()),
    {
        let text = self.to_string();
        let mut v: Vec<u8> = Vec::new();
        push_str(&mut v, text.as_str());
        assert(v@ =~= resp_bytes(self.value()));
        bytes_from_vec(v)
    }

    /// Writes the RESP encoding of this value at the end of `w`; the same
    /// bytes as `to_string`, produced without building the text first.
    pub fn write_to(&self, w: &mut Vec<u8>)
        ensures
            final(w)@ == old(w)@ + resp_bytes(self.value()),
        decreases self, 1int,
    {
        match self {
            RespType::SimpleString(ss) => write_simple_string(ss, w),
            RespType::SimpleError(se) => write_simple_error(se, w),
            RespType::Integer(n) => write_integer(*n, w),
            RespType::BulkString(bs) => write_bulk_string(bs, w),
            RespType::Array(arr) => {
                proof {
                    assert(decreases_to!(self => self->Array_0));
                }
                write_array(arr, w);
            },
            RespType::Null => write_null(w),
            RespType::Boolean(b) => write_boolean(*b, w),
        }
    }
}

fn write_simple_error(se: &String, w: &mut Vec<u8>)
    ensures
        final(w)@ == old(w)@ + resp_bytes(RespValue::SimpleError(se@)),
{
    proof {
        reveal_strlit("-");
        reveal_strlit("\r\n");
    }
    push_str(w, "-");
    push_str(w, se.as_str());
    push_str(w, "\r\n");
    proof {
        lemma_encode_concat("-"@, se@);
        lemma_encode_concat("-"@ + se@, "\r\n"@);
        assert("-"@ + se@ + "\r\n"@ =~= resp_text(RespValue::SimpleError(se@)));
    }
    assert(w@ =~= old(w)@ + resp_bytes(RespValue::SimpleError(se@)));
}

fn write_integer(n: i64, w: &mut Vec<u8>)
    ensures
        final(w)@ == old(w)@ + resp_bytes(RespValue::Integer(n)),
{
    proof {
        reveal_strlit(":");
        reveal_strlit("\r\n");
    }
    let digits = itoa_text(n as i128);
    push_str(w, ":");
    push_str(w, digits.as_str());
    push_str(w, "\r\n");
    proof {
        lemma_encode_concat(":"@, digits@);
        lemma_encode_concat(":"@ + digits@, "\r\n"@);
        assert(":"@ + digits@ + "\r\n"@ =~= resp_text(RespValue::Integer(n)));
    }
    assert(w@ =~= old(w)@ + resp_bytes(RespValue::Integer(n)));
}

fn write_bulk_string(bs: &String, w: &mut Vec<u8>)
    ensures
        final(w)@ == old(w)@ + resp_bytes(RespValue::BulkString(bs@)),
{
    proof {
        reveal_strlit("$");
        reveal_strlit("\r\n");
        reveal_strlit("nil");
        reveal_strlit("$3\r\nnil\r\n");
    }
    let ghost text = resp_text(RespValue::BulkString(bs@));
    if crate::utils::text::str_eq(bs.as_str(), "nil") {
        push_str(w, "$3\r\nnil\r\n");
        proof {
            vstd::utf8::is_ascii_chars_encode_utf8(bs@);
            assert(nat_text(3) =~= seq!['3']);
            assert("$3\r\nnil\r\n"@ =~= text);
        }
        return;
    }
    let n = bs.as_str().as_bytes().len();
    let digits = itoa_text(n as i128);
    push_str(w, "$");
    push_str(w, digits.as_str());
    push_str(w, "\r\n");
    push_str(w, bs.as_str());
    push_str(w, "\r\n");
    proof {
        let a = "$"@ + digits@;
        let b = a + "\r\n"@;
        let c = b + bs@;
        lemma_encode_concat("$"@, digits@);
        lemma_encode_concat(a, "\r\n"@);
        lemma_encode_concat(b, bs@);
        lemma_encode_concat(c, "\r\n"@);
        assert(c + "\r\n"@ =~= text);
    }
    assert(w@ =~= old(w)@ + resp_bytes(RespValue::BulkString(bs@)));
}

fn write_array(arr: &Vec<RespType>, w: &mut Vec<u8>)
    ensures
        final(w)@ == old(w)@ + resp_bytes(RespValue::Array(values_of(arr@))),
    decreases arr, 0int,
{
    broadcast use vstd::std_specs::vec::group_vec_axioms;
    proof {
        reveal_strlit("*");
        reveal_strlit("\r\n");
    }
    let digits = itoa_text(arr.len() as i128);
    push_str(w, "*");
    push_str(w, digits.as_str());
    push_str(w, "\r\n");
    let ghost head = seq!['*'] + nat_text(arr@.len()) + crlf();
    proof {
        lemma_encode_concat("*"@, digits@);
        lemma_encode_concat("*"@ + digits@, "\r\n"@);
        assert("*"@ + digits@ + "\r\n"@ =~= head);
        assert forall|j: int| 0 <= j < arr@.len() implies decreases_to!(arr => #[trigger] arr@[j]) by {
            assert(decreases_to!(arr => arr[j]));
        }
        lemma_values_of(arr@);
        assert(values_of(arr@).subrange(0, 0) =~= Seq::<RespValue>::empty());
        assert(head + items_text(Seq::<RespValue>::empty()) =~= head);
    }
    let mut i: usize = 0;
    while i < arr.len()
        invariant
            i <= arr@.len(),
            values_of(arr@).len() == arr@.len(),
            forall|j: int| 0 <= j < arr@.len() ==> #[trigger] values_of(arr@)[j] == arr@[j].value(),
            w@ == old(w)@ + encode_utf8(head + items_text(values_of(arr@).subrange(0, i as int))),
            forall|j: int| 0 <= j < arr@.len() ==> decreases_to!(arr => #[trigger] arr@[j]),
        decreases arr@.len() - i,
    {
        arr[i].write_to(w);
        proof {
            let vals = values_of(arr@);
            lemma_items_text_step(vals, i as int);
            let before = head + items_text(vals.subrange(0, i as int));
            lemma_encode_concat(before, resp_text(vals[i as int]));
            assert(before + resp_text(vals[i as int]) =~= head + items_text(vals.subrange(0, i + 1)));
        }
        i = i + 1;
    }
    assert(values_of(arr@).subrange(0, arr@.len() as int) =~= values_of(arr@));
    assert(head + items_text(values_of(arr@)) =~= resp_text(RespValue::Array(values_of(arr@))));
}

fn write_null(w: &mut Vec<u8>)
    ensures
        final(w)@ == old(w)@ + resp_bytes(RespValue::Null),
{
    proof {
        reveal_strlit("_\r\n");
    }
    push_str(w, "_\r\n");
    assert("_\r\n"@ =~= resp_text(RespValue::Null));
}

fn write_boolean(b: bool, w: &mut Vec<u8>)
    ensures
        final(w)@ == old(w)@ + resp_bytes(RespValue::Boolean(b)),
{
    proof {
        reveal_strlit("#t\r\n");
        reveal_strlit("#f\r\n");
    }
    if b {
        push_str(w, "#t\r\n");
        assert("#t\r\n"@ =~= resp_text(RespValue::Boolean(b)));
    } else {
        push_str(w, "#f\r\n");
        assert("#f\r\n"@ =~= resp_text(RespValue::Boolean(b)));
    }
}

} // verus!
