//! The wire protocol: one request and one response per connection.
//!
//! A request is an operation byte (`s`, `g` or `r`), the key as a field,
//! and for `s` the value as a second field. A response is a status byte
//! (0 for success, 1 for failure) and at most one field. A field is its
//! length in bytes as an unsigned 32-bit number, most significant byte
//! first, and then that many bytes of UTF-8.

use vstd::prelude::*;
use vstd::string::*;
use vstd::utf8::{decode_utf8, encode_utf8, encode_utf8_decode_utf8, encode_utf8_valid_utf8, valid_utf8};
use crate::bytes::{append_bytes, slice_range};

verus! {

/// The operation byte of a set: `s`.
pub const OP_SET: u8 = 115;

/// The operation byte of a get: `g`.
pub const OP_GET: u8 = 103;

/// The operation byte of a remove: `r`.
pub const OP_REMOVE: u8 = 114;

/// The status byte of a success.
pub const STATUS_OK: u8 = 0;

/// The status byte of a failure.
pub const STATUS_FAILED: u8 = 1;

/// The four bytes of `n`, most significant first.
pub open spec fn be32(n: nat) -> Seq<u8> {
    seq![
        (n / 16777216) as u8,
        ((n / 65536) % 256) as u8,
        ((n / 256) % 256) as u8,
        (n % 256) as u8,
    ]
}

/// The number that four bytes stand for, most significant first.
pub open spec fn be32_value(b: Seq<u8>) -> nat {
    (b[0] * 16777216 + b[1] * 65536 + b[2] * 256 + b[3]) as nat
}

/// The text that bytes off the wire are taken for where they are no
/// UTF-8: what `String::from_utf8_lossy` makes of them.
pub uninterp spec fn utf8_replaced(bytes: Seq<u8>) -> Seq<char>;

/// The text that bytes off the wire are taken for: what they encode, where
/// they are UTF-8.
pub open spec fn utf8_lossy(bytes: Seq<u8>) -> Seq<char> {
    if valid_utf8(bytes) {
        decode_utf8(bytes)
    } else {
        utf8_replaced(bytes)
    }
}

/// `String::from_utf8_lossy`: for UTF-8 the string that the bytes encode;
/// for other bytes a string that depends on the bytes alone.
#[verifier::external_body]
fn lossy(bytes: &[u8]) -> (r: String)
    ensures
        r@ == if valid_utf8(bytes@) {
            decode_utf8(bytes@)
        } else {
            utf8_replaced(bytes@)
        },
{
    String::from_utf8_lossy(bytes).into_owned()
}

/// The text that bytes off the wire are taken for.
pub fn text_of(bytes: &[u8]) -> (r: String)
    ensures
        r@ == utf8_lossy(bytes@),
{
    lossy(bytes)
}

/// Whether a text is short enough for a field.
pub open spec fn fits(text: Seq<char>) -> bool {
    encode_utf8(text).len() <= u32::MAX
}

/// A text as a field: the length of its UTF-8, then the UTF-8.
pub open spec fn field(text: Seq<char>) -> Seq<u8> {
    be32(encode_utf8(text).len()) + encode_utf8(text)
}

/// What reading a field at index `at` of `bytes` comes to.
pub enum FieldView {
    /// The field's bytes, and the index just past them.
    Whole(Seq<u8>, int),
    /// The field is cut off: at least so many more bytes belong to it.
    Short(nat),
}

/// Reads the field that starts at index `at` of `bytes`.
pub open spec fn field_at(bytes: Seq<u8>, at: int) -> FieldView {
    if bytes.len() < at + 4 {
        FieldView::Short((at + 4 - bytes.len()) as nat)
    } else {
        let n = be32_value(bytes.subrange(at, at + 4));
        if bytes.len() < at + 4 + n {
            FieldView::Short((at + 4 + n - bytes.len()) as nat)
        } else {
            FieldView::Whole(bytes.subrange(at + 4, at + 4 + n), at + 4 + n)
        }
    }
}

/// A request of a client.
#[derive(Debug, Clone)]
pub enum Request {
    /// Give the key the value.
    Put { key: String, value: String },
    /// Tell the key's value.
    Get { key: String },
    /// Take the key's value away.
    Remove { key: String },
}

/// The mathematical value of a `Request`.
pub enum RequestView {
    Put { key: Seq<char>, value: Seq<char> },
    Get { key: Seq<char> },
    Remove { key: Seq<char> },
}

impl View for Request {
    type V = RequestView;

    open spec fn view(&self) -> RequestView {
        match self {
            Request::Put { key, value } => RequestView::Put { key: key@, value: value@ },
            Request::Get { key } => RequestView::Get { key: key@ },
            Request::Remove { key } => RequestView::Remove { key: key@ },
        }
    }
}

impl RequestView {
    /// Whether the request's texts are short enough for the wire.
    pub open spec fn fits(self) -> bool {
        match self {
            RequestView::Put { key, value } => fits(key) && fits(value),
            RequestView::Get { key } => fits(key),
            RequestView::Remove { key } => fits(key),
        }
    }

    /// The bytes of the request on the wire.
    pub open spec fn wire(self) -> Seq<u8> {
        match self {
            RequestView::Put { key, value } => seq![OP_SET] + field(key) + field(value),
            RequestView::Get { key } => seq![OP_GET] + field(key),
            RequestView::Remove { key } => seq![OP_REMOVE] + field(key),
        }
    }
}

/// What the bytes received so far come to.
#[derive(Debug)]
pub enum Parsed {
    /// They are one whole request.
    Done(Request),
    /// They begin a request; at least so many more bytes belong to it.
    Need(usize),
    /// They are no request and begin none.
    Invalid,
}

/// The mathematical value of a `Parsed`.
pub enum ParsedView {
    Done(RequestView),
    Need(nat),
    Invalid,
}

impl View for Parsed {
    type V = ParsedView;

    open spec fn view(&self) -> ParsedView {
        match self {
            Parsed::Done(request) => ParsedView::Done(request@),
            Parsed::Need(n) => ParsedView::Need(*n as nat),
            Parsed::Invalid => ParsedView::Invalid,
        }
    }
}

/// What `bytes` come to as a request.
pub open spec fn parsed(bytes: Seq<u8>) -> ParsedView {
    if bytes.len() == 0 {
        ParsedView::Need(1)
    } else if bytes[0] != OP_SET && bytes[0] != OP_GET && bytes[0] != OP_REMOVE {
        ParsedView::Invalid
    } else {
        match field_at(bytes, 1) {
            FieldView::Short(n) => ParsedView::Need(n),
            FieldView::Whole(key, end) => if bytes[0] == OP_SET {
                match field_at(bytes, end) {
                    FieldView::Short(n) => ParsedView::Need(n),
                    FieldView::Whole(value, last) => if last == bytes.len() {
                        ParsedView::Done(
                            RequestView::Put { key: utf8_lossy(key), value: utf8_lossy(value) },
                        )
                    } else {
                        ParsedView::Invalid
                    },
                }
            } else if end != bytes.len() {
                ParsedView::Invalid
            } else if bytes[0] == OP_GET {
                ParsedView::Done(RequestView::Get { key: utf8_lossy(key) })
            } else {
                ParsedView::Done(RequestView::Remove { key: utf8_lossy(key) })
            },
        }
    }
}

/// A response of the server.
#[derive(Debug, Clone)]
pub struct Response {
    /// Whether the operation succeeded.
    pub ok: bool,
    /// The value of a get that hit, or the reason of a failure.
    pub text: Option<String>,
}

/// The mathematical value of a `Response`.
pub struct ResponseView {
    pub ok: bool,
    pub text: Option<Seq<char>>,
}

impl View for Response {
    type V = ResponseView;

    open spec fn view(&self) -> ResponseView {
        ResponseView {
            ok: self.ok,
            text: match self.text {
                Some(t) => Some(t@),
                None => None,
            },
        }
    }
}

impl ResponseView {
    /// Whether the response's text is short enough for the wire.
    pub open spec fn fits(self) -> bool {
        self.text is Some ==> fits(self.text->0)
    }

    /// The bytes of the response on the wire.
    pub open spec fn wire(self) -> Seq<u8> {
        seq![if self.ok { STATUS_OK } else { STATUS_FAILED }] + match self.text {
            Some(t) => field(t),
            None => Seq::empty(),
        }
    }
}

/// What `bytes` come to as a whole response: `None` where they are none.
pub open spec fn parsed_response(bytes: Seq<u8>) -> Option<ResponseView> {
    if bytes.len() == 0 || (bytes[0] != STATUS_OK && bytes[0] != STATUS_FAILED) {
        None
    } else if bytes.len() == 1 {
        Some(ResponseView { ok: bytes[0] == STATUS_OK, text: None })
    } else {
        match field_at(bytes, 1) {
            FieldView::Whole(text, end) => if end == bytes.len() {
                Some(ResponseView { ok: bytes[0] == STATUS_OK, text: Some(utf8_lossy(text)) })
            } else {
                None
            },
            FieldView::Short(_) => None,
        }
    }
}

/// Four bytes written for a number stand for that number.
pub proof fn lemma_be32(n: nat)
    requires
        n <= u32::MAX,
    ensures
        be32(n).len() == 4,
        be32_value(be32(n)) == n,
{
}

/// A field that lies in `bytes` at index `at` is read there whole.
pub proof fn lemma_field_read(bytes: Seq<u8>, at: int, text: Seq<char>)
    requires
        fits(text),
        0 <= at,
        at + field(text).len() <= bytes.len(),
        bytes.subrange(at, at + field(text).len()) == field(text),
    ensures
        field_at(bytes, at) == FieldView::Whole(encode_utf8(text), at + field(text).len()),
        utf8_lossy(encode_utf8(text)) == text,
{
    let utf8 = encode_utf8(text);
    let f = field(text);
    lemma_be32(utf8.len());
    assert(f.len() == 4 + utf8.len());
    assert(bytes.subrange(at, at + 4) =~= be32(utf8.len())) by {
        assert forall|j: int| 0 <= j < 4 implies bytes.subrange(at, at + 4)[j] == be32(
            utf8.len(),
        )[j] by {
            assert(bytes.subrange(at, at + f.len())[j] == f[j]);
        }
    }
    assert(bytes.subrange(at + 4, at + 4 + utf8.len()) =~= utf8) by {
        assert forall|j: int| 0 <= j < utf8.len() implies bytes.subrange(
            at + 4,
            at + 4 + utf8.len(),
        )[j] == utf8[j] by {
            assert(bytes.subrange(at, at + f.len())[j + 4] == f[j + 4]);
        }
    }
    encode_utf8_valid_utf8(text);
    encode_utf8_decode_utf8(text);
}

/// Reading what was written for a request gives the request.
pub proof fn law_request_round_trip(request: RequestView)
    requires
        request.fits(),
    ensures
        parsed(request.wire()) == ParsedView::Done(request),
{
    let bytes = request.wire();
    match request {
        RequestView::Put { key, value } => {
            let end: int = 1 + field(key).len() as int;
            assert(bytes.subrange(1, end) =~= field(key));
            assert(bytes.subrange(end, end + field(value).len() as int) =~= field(value));
            lemma_field_read(bytes, 1, key);
            lemma_field_read(bytes, end, value);
        },
        RequestView::Get { key } => {
            assert(bytes.subrange(1, 1 + field(key).len() as int) =~= field(key));
            lemma_field_read(bytes, 1, key);
        },
        RequestView::Remove { key } => {
            assert(bytes.subrange(1, 1 + field(key).len() as int) =~= field(key));
            lemma_field_read(bytes, 1, key);
        },
    }
}

/// Reading what was written for a response gives the response.
pub proof fn law_response_round_trip(response: ResponseView)
    requires
        response.fits(),
    ensures
        parsed_response(response.wire()) == Some(response),
{
    let bytes = response.wire();
    match response.text {
        Some(t) => {
            lemma_be32(encode_utf8(t).len());
            assert(bytes.subrange(1, 1 + field(t).len() as int) =~= field(t));
            lemma_field_read(bytes, 1, t);
        },
        None => {
            assert(bytes.len() == 1);
        },
    }
}

fn put_be32(out: &mut Vec<u8>, n: u32)
    ensures
        final(out)@ == old(out)@ + be32(n as nat),
{
    out.push((n / 16777216) as u8);
    out.push(((n / 65536) % 256) as u8);
    out.push(((n / 256) % 256) as u8);
    out.push((n % 256) as u8);
    proof {
        assert(out@ =~= old(out)@ + be32(n as nat));
    }
}

fn get_be32(bytes: &[u8], at: usize) -> (r: u32)
    requires
        at + 4 <= bytes.len(),
    ensures
        r == be32_value(bytes@.subrange(at as int, at + 4)),
{
    let b0: u32 = bytes[at] as u32;
    let b1: u32 = bytes[at + 1] as u32;
    let b2: u32 = bytes[at + 2] as u32;
    let b3: u32 = bytes[at + 3] as u32;
    b0 * 16777216 + b1 * 65536 + b2 * 256 + b3
}

/// Appends the text as a field; leaves `out` alone and says `false` where
/// the text is too long for one.
fn put_field(out: &mut Vec<u8>, text: &str) -> (r: bool)
    ensures
        r == fits(text@),
        final(out)@ == if r {
            old(out)@ + field(text@)
        } else {
            old(out)@
        },
{
    let utf8 = text.as_bytes();
    if utf8.len() > 0xffff_ffff {
        return false;
    }
    put_be32(out, utf8.len() as u32);
    append_bytes(out, utf8);
    proof {
        assert(out@ =~= old(out)@ + field(text@));
    }
    true
}

enum Field {
    Whole(usize, usize),
    Short(usize),
}

fn read_field(bytes: &[u8], at: usize) -> (r: Field)
    requires
        at <= bytes.len(),
    ensures
        match r {
            Field::Whole(start, end) => start <= end <= bytes.len() && field_at(bytes@, at as int)
                == FieldView::Whole(bytes@.subrange(start as int, end as int), end as int),
            Field::Short(n) => field_at(bytes@, at as int) == FieldView::Short(n as nat),
        },
{
    let rest: usize = bytes.len() - at;
    if rest < 4 {
        return Field::Short(4 - rest);
    }
    let n: usize = get_be32(bytes, at) as usize;
    if rest - 4 < n {
        return Field::Short(n - (rest - 4));
    }
    Field::Whole(at + 4, at + 4 + n)
}

impl Request {
    /// The bytes of the request on the wire; `None` exactly where a text of
    /// the request is too long for a field.
    pub fn encode(&self) -> (r: Option<Vec<u8>>)
        ensures
            match r {
                Some(bytes) => self@.fits() && bytes@ == self@.wire(),
                None => !self@.fits(),
            },
    {
        let mut out: Vec<u8> = Vec::new();
        match self {
            Request::Put { key, value } => {
                out.push(OP_SET);
                if !put_field(&mut out, key.as_str()) {
                    return None;
                }
                if !put_field(&mut out, value.as_str()) {
                    return None;
                }
            },
            Request::Get { key } => {
                out.push(OP_GET);
                if !put_field(&mut out, key.as_str()) {
                    return None;
                }
            },
            Request::Remove { key } => {
                out.push(OP_REMOVE);
                if !put_field(&mut out, key.as_str()) {
                    return None;
                }
            },
        }
        proof {
            assert(out@ =~= self@.wire());
        }
        Some(out)
    }

    /// Reads the bytes received so far: a whole request, the beginning of
    /// one with the number of bytes to wait for, or neither.
    pub fn decode(bytes: &[u8]) -> (r: Parsed)
        ensures
            r@ == parsed(bytes@),
    {
        if bytes.len() == 0 {
            return Parsed::Need(1);
        }
        let op: u8 = bytes[0];
        if op != OP_SET && op != OP_GET && op != OP_REMOVE {
            return Parsed::Invalid;
        }
        let (key_start, key_end) = match read_field(bytes, 1) {
            Field::Whole(start, end) => (start, end),
            Field::Short(n) => { return Parsed::Need(n); },
        };
        let key = text_of(slice_range(bytes, key_start, key_end));
        if op == OP_SET {
            let (value_start, value_end) = match read_field(bytes, key_end) {
                Field::Whole(start, end) => (start, end),
                Field::Short(n) => { return Parsed::Need(n); },
            };
            if value_end != bytes.len() {
                return Parsed::Invalid;
            }
            let value = text_of(slice_range(bytes, value_start, value_end));
            Parsed::Done(Request::Put { key, value })
        } else if key_end != bytes.len() {
            Parsed::Invalid
        } else if op == OP_GET {
            Parsed::Done(Request::Get { key })
        } else {
            Parsed::Done(Request::Remove { key })
        }
    }
}

impl Response {
    /// The bytes of the response on the wire; `None` exactly where its
    /// text is too long for a field.
    pub fn encode(&self) -> (r: Option<Vec<u8>>)
        ensures
            match r {
                Some(bytes) => self@.fits() && bytes@ == self@.wire(),
                None => !self@.fits(),
            },
    {
        let mut out: Vec<u8> = Vec::new();
        out.push(if self.ok { STATUS_OK } else { STATUS_FAILED });
        match &self.text {
            Some(t) => {
                if !put_field(&mut out, t.as_str()) {
                    return None;
                }
            },
            None => {},
        }
        proof {
            assert(out@ =~= self@.wire());
        }
        Some(out)
    }

    /// Reads a whole response; `None` exactly where the bytes are none.
    pub fn decode(bytes: &[u8]) -> (r: Option<Response>)
        ensures
            match r {
                Some(response) => parsed_response(bytes@) == Some(response@),
                None => parsed_response(bytes@) is None,
            },
    {
        if bytes.len() == 0 {
            return None;
        }
        let status: u8 = bytes[0];
        if status != STATUS_OK && status != STATUS_FAILED {
            return None;
        }
        if bytes.len() == 1 {
            return Some(Response { ok: status == STATUS_OK, text: None });
        }
        match read_field(bytes, 1) {
            Field::Whole(start, end) => {
                if end != bytes.len() {
                    return None;
                }
                let text = text_of(slice_range(bytes, start, end));
                Some(Response { ok: status == STATUS_OK, text: Some(text) })
            },
            Field::Short(_) => None,
        }
    }
}

} // verus!
