//! The text form of one log record: a tagged JSON object on a single line,
//! `{"Set":{"key":K,"value":V}}` or `{"Remove":{"key":K}}`, where `K` and `V`
//! are JSON string literals. This module knows the frame around the
//! literals; what a literal stands for is the business of the entry codec.

use vstd::prelude::*;
use crate::bytes::{append_bytes, copy_range, has_at, starts_with_at};

verus! {

/// The double quote that opens and closes a string literal.
pub const QUOTE: u8 = 34;

/// The backslash that escapes the byte after it inside a literal.
pub const BACKSLASH: u8 = 92;

/// The line feed that ends a record in a log file.
pub const NEWLINE: u8 = 10;

/// `{"Set":{"key":`
pub open spec fn set_head() -> Seq<u8> {
    seq![123u8, 34, 83, 101, 116, 34, 58, 123, 34, 107, 101, 121, 34, 58]
}

/// `,"value":`
pub open spec fn set_mid() -> Seq<u8> {
    seq![44u8, 34, 118, 97, 108, 117, 101, 34, 58]
}

/// `{"Remove":{"key":`
pub open spec fn remove_head() -> Seq<u8> {
    seq![123u8, 34, 82, 101, 109, 111, 118, 101, 34, 58, 123, 34, 107, 101, 121, 34, 58]
}

/// `}}`
pub open spec fn tail() -> Seq<u8> {
    seq![125u8, 125]
}

/// Scans the body of a string literal from index `i`: the result is the
/// index just past the closing quote, or `None` when `s` ends first. A
/// backslash takes the byte after it along, whatever that byte is.
pub open spec fn literal_end(s: Seq<u8>, i: int) -> Option<int>
    decreases s.len() - i,
{
    if i < 0 || i >= s.len() {
        None
    } else if s[i] == QUOTE {
        Some(i + 1)
    } else if s[i] == BACKSLASH {
        if i + 1 < s.len() {
            literal_end(s, i + 2)
        } else {
            None
        }
    } else {
        literal_end(s, i + 1)
    }
}

/// The end of the string literal that starts at index `at` of `s`, if one
/// starts there.
pub open spec fn literal_at(s: Seq<u8>, at: int) -> Option<int> {
    if 0 <= at < s.len() && s[at] == QUOTE {
        literal_end(s, at + 1)
    } else {
        None
    }
}

/// Whether `lit` is exactly one string literal, from its opening quote to
/// its closing quote.
pub open spec fn is_literal(lit: Seq<u8>) -> bool {
    literal_at(lit, 0) == Some(lit.len() as int)
}

/// A record taken apart: its kind and its literals, still quoted.
pub enum RawEntry {
    Put { key: Vec<u8>, value: Vec<u8> },
    Remove { key: Vec<u8> },
}

/// The mathematical value of a `RawEntry`.
pub enum RawView {
    Put { key: Seq<u8>, value: Seq<u8> },
    Remove { key: Seq<u8> },
}

impl View for RawEntry {
    type V = RawView;

    open spec fn view(&self) -> RawView {
        match self {
            RawEntry::Put { key, value } => RawView::Put { key: key@, value: value@ },
            RawEntry::Remove { key } => RawView::Remove { key: key@ },
        }
    }
}

impl RawView {
    /// Whether every literal of the record is exactly one string literal.
    pub open spec fn well_formed(self) -> bool {
        match self {
            RawView::Put { key, value } => is_literal(key) && is_literal(value),
            RawView::Remove { key } => is_literal(key),
        }
    }

    /// Whether a line feed occurs in one of the literals.
    pub open spec fn has_newline(self) -> bool {
        match self {
            RawView::Put { key, value } => key.contains(NEWLINE) || value.contains(NEWLINE),
            RawView::Remove { key } => key.contains(NEWLINE),
        }
    }
}

/// The line that stands for a record.
pub open spec fn framed(raw: RawView) -> Seq<u8> {
    match raw {
        RawView::Put { key, value } => set_head() + key + set_mid() + value + tail(),
        RawView::Remove { key } => remove_head() + key + tail(),
    }
}

/// The record that a line stands for, if the line has the form of one.
pub open spec fn unframed(line: Seq<u8>) -> Option<RawView> {
    if has_at(line, 0, set_head()) {
        match literal_at(line, 14) {
            Some(key_end) => if has_at(line, key_end, set_mid()) {
                match literal_at(line, key_end + 9) {
                    Some(value_end) => if line.subrange(value_end, line.len() as int) == tail() {
                        Some(
                            RawView::Put {
                                key: line.subrange(14, key_end),
                                value: line.subrange(key_end + 9, value_end),
                            },
                        )
                    } else {
                        None
                    },
                    None => None,
                }
            } else {
                None
            },
            None => None,
        }
    } else if has_at(line, 0, remove_head()) {
        match literal_at(line, 17) {
            Some(key_end) => if line.subrange(key_end, line.len() as int) == tail() {
                Some(RawView::Remove { key: line.subrange(17, key_end) })
            } else {
                None
            },
            None => None,
        }
    } else {
        None
    }
}

/// The scan of a literal's body looks at nothing past the closing quote, and
/// not at where in a line the literal lies: where `t` holds at `d + j` what
/// `s` holds at `j`, for every `j` from `i` up to the end that the scan of
/// `s` finds, the scan of `t` from `d + i` ends at the same byte.
pub proof fn lemma_literal_end_embedded(s: Seq<u8>, i: int, t: Seq<u8>, d: int)
    requires
        0 <= i,
        0 <= d,
        literal_end(s, i) is Some,
        d + literal_end(s, i)->0 <= t.len(),
        forall|j: int| i <= j < literal_end(s, i)->0 ==> t[d + j] == s[j],
    ensures
        literal_end(t, d + i) == Some(d + literal_end(s, i)->0),
    decreases s.len() - i,
{
    lemma_literal_end_bounds(s, i);
    if s[i] == QUOTE {
    } else if s[i] == BACKSLASH {
        lemma_literal_end_bounds(s, i + 2);
        lemma_literal_end_embedded(s, i + 2, t, d);
    } else {
        lemma_literal_end_bounds(s, i + 1);
        lemma_literal_end_embedded(s, i + 1, t, d);
    }
}

/// A scan that succeeds ends after its start and inside the text.
pub proof fn lemma_literal_end_bounds(s: Seq<u8>, i: int)
    requires
        literal_end(s, i) is Some,
    ensures
        0 <= i < literal_end(s, i)->0 <= s.len(),
    decreases s.len() - i,
{
    if s[i] == QUOTE {
    } else if s[i] == BACKSLASH {
        lemma_literal_end_bounds(s, i + 2);
    } else {
        lemma_literal_end_bounds(s, i + 1);
    }
}

/// A whole literal that lies in `t` at index `d` is found there, and ends
/// where it ends.
pub proof fn lemma_literal_found(lit: Seq<u8>, t: Seq<u8>, d: int)
    requires
        is_literal(lit),
        has_at(t, d, lit),
    ensures
        literal_at(t, d) == Some(d + lit.len()),
{
    assert forall|j: int| 0 <= j < lit.len() implies t[d + j] == lit[j] by {
        assert(t.subrange(d, d + lit.len())[j] == lit[j]);
    }
    lemma_literal_end_embedded(lit, 1, t, d);
}

/// The literal found in `s` at `at` is itself exactly one literal.
pub proof fn lemma_literal_cut(s: Seq<u8>, at: int)
    requires
        literal_at(s, at) is Some,
    ensures
        at < literal_at(s, at)->0 <= s.len(),
        is_literal(s.subrange(at, literal_at(s, at)->0)),
{
    let end = literal_at(s, at)->0;
    lemma_literal_end_bounds(s, at + 1);
    lemma_literal_end_shifted_down(s, at + 1, at, end);
}

/// The scan of `s` from `i`, replayed on the cut of `s` between `at` and
/// `end`, ends at the same byte.
proof fn lemma_literal_end_shifted_down(s: Seq<u8>, i: int, at: int, end: int)
    requires
        0 <= at < i,
        literal_end(s, i) == Some(end),
        end <= s.len(),
    ensures
        literal_end(s.subrange(at, end), i - at) == Some(end - at),
    decreases s.len() - i,
{
    lemma_literal_end_bounds(s, i);
    let cut = s.subrange(at, end);
    assert(cut[i - at] == s[i]);
    if s[i] == QUOTE {
    } else if s[i] == BACKSLASH {
        lemma_literal_end_bounds(s, i + 2);
        lemma_literal_end_shifted_down(s, i + 2, at, end);
    } else {
        lemma_literal_end_bounds(s, i + 1);
        lemma_literal_end_shifted_down(s, i + 1, at, end);
    }
}

/// Taking a record's line apart gives the record back, where its literals
/// are whole literals.
pub proof fn lemma_unframe_framed(raw: RawView)
    requires
        raw.well_formed(),
    ensures
        unframed(framed(raw)) == Some(raw),
{
    let line = framed(raw);
    match raw {
        RawView::Put { key, value } => {
            let key_end: int = 14 + key.len() as int;
            let value_end: int = key_end + 9 + value.len() as int;
            assert(line.subrange(0, 14) =~= set_head());
            assert(line.subrange(14, key_end) =~= key);
            assert(line.subrange(key_end, key_end + 9) =~= set_mid());
            assert(line.subrange(key_end + 9, value_end) =~= value);
            assert(line.subrange(value_end, line.len() as int) =~= tail());
            lemma_literal_found(key, line, 14);
            lemma_literal_found(value, line, key_end + 9);
        },
        RawView::Remove { key } => {
            let key_end: int = 17 + key.len() as int;
            assert(line.subrange(0, 17) =~= remove_head());
            assert(line[2] == remove_head()[2]);
            assert(!has_at(line, 0, set_head())) by {
                if has_at(line, 0, set_head()) {
                    assert(line.subrange(0, 14)[2] == set_head()[2]);
                }
            }
            assert(line.subrange(17, key_end) =~= key);
            assert(line.subrange(key_end, line.len() as int) =~= tail());
            lemma_literal_found(key, line, 17);
        },
    }
}

/// A line that has the form of a record is the line of the record it
/// stands for, and that record's literals are whole literals: no two lines
/// stand for one record.
pub proof fn lemma_frame_unframed(line: Seq<u8>)
    requires
        unframed(line) is Some,
    ensures
        framed(unframed(line)->0) == line,
        unframed(line)->0.well_formed(),
{
    if has_at(line, 0, set_head()) {
        let key_end = literal_at(line, 14)->0;
        let value_end = literal_at(line, key_end + 9)->0;
        lemma_literal_cut(line, 14);
        lemma_literal_cut(line, key_end + 9);
        assert(framed(unframed(line)->0) =~= line) by {
            assert(line =~= line.subrange(0, 14) + line.subrange(14, key_end) + line.subrange(
                key_end,
                key_end + 9,
            ) + line.subrange(key_end + 9, value_end) + line.subrange(
                value_end,
                line.len() as int,
            ));
        }
    } else {
        let key_end = literal_at(line, 17)->0;
        lemma_literal_cut(line, 17);
        assert(framed(unframed(line)->0) =~= line) by {
            assert(line =~= line.subrange(0, 17) + line.subrange(17, key_end) + line.subrange(
                key_end,
                line.len() as int,
            ));
        }
    }
}

/// A record's line holds a line feed only where one of its literals does.
pub proof fn lemma_framed_newline(raw: RawView)
    ensures
        framed(raw).contains(NEWLINE) <==> raw.has_newline(),
{
    let line = framed(raw);
    match raw {
        RawView::Put { key, value } => {
            let key_end: int = 14 + key.len() as int;
            let value_end: int = key_end + 9 + value.len() as int;
            if key.contains(NEWLINE) {
                let j = choose|j: int| 0 <= j < key.len() && key[j] == NEWLINE;
                assert(line[14 + j] == NEWLINE);
            }
            if value.contains(NEWLINE) {
                let j = choose|j: int| 0 <= j < value.len() && value[j] == NEWLINE;
                assert(line[key_end + 9 + j] == NEWLINE);
            }
            if line.contains(NEWLINE) {
                let j = choose|j: int| 0 <= j < line.len() && line[j] == NEWLINE;
                if j < 14 {
                    assert(line[j] == set_head()[j]);
                } else if j < key_end {
                    assert(key[j - 14] == NEWLINE);
                } else if j < key_end + 9 {
                    assert(line[j] == set_mid()[j - key_end]);
                } else if j < value_end {
                    assert(value[j - key_end - 9] == NEWLINE);
                } else {
                    assert(line[j] == tail()[j - value_end]);
                }
            }
        },
        RawView::Remove { key } => {
            let key_end: int = 17 + key.len() as int;
            if key.contains(NEWLINE) {
                let j = choose|j: int| 0 <= j < key.len() && key[j] == NEWLINE;
                assert(line[17 + j] == NEWLINE);
            }
            if line.contains(NEWLINE) {
                let j = choose|j: int| 0 <= j < line.len() && line[j] == NEWLINE;
                if j < 17 {
                    assert(line[j] == remove_head()[j]);
                } else if j < key_end {
                    assert(key[j - 17] == NEWLINE);
                } else {
                    assert(line[j] == tail()[j - key_end]);
                }
            }
        },
    }
}

fn set_head_bytes() -> (r: Vec<u8>)
    ensures
        r@ == set_head(),
{
    let r: Vec<u8> = vec![123u8, 34, 83, 101, 116, 34, 58, 123, 34, 107, 101, 121, 34, 58];
    proof {
        assert(r@ =~= set_head());
    }
    r
}

fn set_mid_bytes() -> (r: Vec<u8>)
    ensures
        r@ == set_mid(),
{
    let r: Vec<u8> = vec![44u8, 34, 118, 97, 108, 117, 101, 34, 58];
    proof {
        assert(r@ =~= set_mid());
    }
    r
}

fn remove_head_bytes() -> (r: Vec<u8>)
    ensures
        r@ == remove_head(),
{
    let r: Vec<u8> = vec![
        123u8,
        34,
        82,
        101,
        109,
        111,
        118,
        101,
        34,
        58,
        123,
        34,
        107,
        101,
        121,
        34,
        58,
    ];
    proof {
        assert(r@ =~= remove_head());
    }
    r
}

fn tail_bytes() -> (r: Vec<u8>)
    ensures
        r@ == tail(),
{
    let r: Vec<u8> = vec![125u8, 125];
    proof {
        assert(r@ =~= tail());
    }
    r
}

/// Finds the end of the string literal that starts at index `at` of `s`.
pub fn scan_literal(s: &[u8], at: usize) -> (r: Option<usize>)
    ensures
        match r {
            Some(end) => literal_at(s@, at as int) == Some(end as int),
            None => literal_at(s@, at as int) is None,
        },
{
    if at >= s.len() || s[at] != QUOTE {
        return None;
    }
    let mut i: usize = at + 1;
    while i < s.len()
        invariant
            at < i,
            literal_at(s@, at as int) == literal_end(s@, i as int),
        decreases s.len() - i,
    {
        let b: u8 = s[i];
        if b == QUOTE {
            return Some(i + 1);
        } else if b == BACKSLASH {
            if s.len() - i < 2 {
                return None;
            }
            i += 2;
        } else {
            i += 1;
        }
    }
    None
}

/// Whether `lit` is exactly one string literal.
pub fn is_whole_literal(lit: &[u8]) -> (r: bool)
    ensures
        r == is_literal(lit@),
{
    match scan_literal(lit, 0) {
        Some(end) => end == lit.len(),
        None => false,
    }
}

/// Writes the line of a record.
pub fn frame(raw: &RawEntry) -> (line: Vec<u8>)
    ensures
        line@ == framed(raw@),
{
    let mut line: Vec<u8> = Vec::new();
    match raw {
        RawEntry::Put { key, value } => {
            let head = set_head_bytes();
            let mid = set_mid_bytes();
            append_bytes(&mut line, head.as_slice());
            append_bytes(&mut line, key.as_slice());
            append_bytes(&mut line, mid.as_slice());
            append_bytes(&mut line, value.as_slice());
        },
        RawEntry::Remove { key } => {
            let head = remove_head_bytes();
            append_bytes(&mut line, head.as_slice());
            append_bytes(&mut line, key.as_slice());
        },
    }
    let end = tail_bytes();
    append_bytes(&mut line, end.as_slice());
    proof {
        assert(line@ =~= framed(raw@));
    }
    line
}

/// Takes a line apart into the record it stands for; `None` where the line
/// has not the form of a record.
pub fn unframe(line: &[u8]) -> (r: Option<RawEntry>)
    ensures
        match r {
            Some(raw) => unframed(line@) == Some(raw@),
            None => unframed(line@) is None,
        },
{
    let end = tail_bytes();
    let head = set_head_bytes();
    if starts_with_at(line, 0, head.as_slice()) {
        let key_end: usize = match scan_literal(line, 14) {
            Some(end) => end,
            None => { return None; },
        };
        proof {
            lemma_literal_cut(line@, 14);
        }
        let mid = set_mid_bytes();
        if !starts_with_at(line, key_end, mid.as_slice()) {
            return None;
        }
        assert(mid@.len() == 9);
        assert(key_end + 9 <= line.len());
        let value_end: usize = match scan_literal(line, key_end + 9) {
            Some(end) => end,
            None => { return None; },
        };
        proof {
            lemma_literal_cut(line@, key_end + 9);
        }
        if !(line.len() - value_end == 2 && starts_with_at(line, value_end, end.as_slice())) {
            return None;
        }
        let key = copy_range(line, 14, key_end);
        let value = copy_range(line, key_end + 9, value_end);
        return Some(RawEntry::Put { key, value });
    }
    let head = remove_head_bytes();
    if starts_with_at(line, 0, head.as_slice()) {
        let key_end: usize = match scan_literal(line, 17) {
            Some(end) => end,
            None => { return None; },
        };
        proof {
            lemma_literal_cut(line@, 17);
        }
        if !(line.len() - key_end == 2 && starts_with_at(line, key_end, end.as_slice())) {
            return None;
        }
        let key = copy_range(line, 17, key_end);
        return Some(RawEntry::Remove { key });
    }
    None
}

} // verus!
