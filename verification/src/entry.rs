//! Log entries and their text form. A key or a value is written as the JSON
//! string literal that `serde_json` gives it, inside the frame of the
//! record; the literal is accepted only after it has been read back.

use vstd::prelude::*;
use crate::bytes::{find_byte, lemma_first_at};
use crate::error::{CodecFault, EngineError, ErrorView};
use crate::frame::{
    frame, framed, is_literal, is_whole_literal, lemma_framed_newline, lemma_unframe_framed,
    unframe, unframed, RawEntry, RawView, NEWLINE,
};

verus! {

/// One mutation of the store, as the log records it.
#[derive(Debug, Clone)]
pub enum Entry {
    /// The key is given the value.
    Put { key: String, value: String },
    /// The key loses its value.
    Remove { key: String },
}

/// The mathematical value of an `Entry`.
pub enum EntryView {
    Put { key: Seq<char>, value: Seq<char> },
    Remove { key: Seq<char> },
}

impl View for Entry {
    type V = EntryView;

    open spec fn view(&self) -> EntryView {
        match self {
            Entry::Put { key, value } => EntryView::Put { key: key@, value: value@ },
            Entry::Remove { key } => EntryView::Remove { key: key@ },
        }
    }
}

/// The error of `serde_json`. Nothing of it is read: a failure of the
/// codec is told by the library's own `CodecFault`.
#[verifier::external_type_specification]
#[verifier::external_body]
pub struct ExJsonError(serde_json::Error);

/// The JSON text that `serde_json::to_vec` gives for a string, `None` where
/// it fails.
pub uninterp spec fn json_literal(text: Seq<char>) -> Option<Seq<u8>>;

/// The string that `serde_json::from_slice` reads from JSON text, `None`
/// where it fails.
pub uninterp spec fn json_text(literal: Seq<u8>) -> Option<Seq<char>>;

/// `serde_json::to_vec` on a string slice. Nothing is claimed of the text
/// it returns but that it depends on the string alone.
#[verifier::external_body]
fn json_quote(text: &str) -> (r: Result<Vec<u8>, serde_json::Error>)
    ensures
        match r {
            Ok(literal) => json_literal(text@) == Some(literal@),
            Err(_) => json_literal(text@) is None,
        },
{
    serde_json::to_vec(text)
}

/// `serde_json::from_slice` for a `String`. Nothing is claimed of the
/// string it returns but that it depends on the bytes alone.
#[verifier::external_body]
fn json_unquote(literal: &[u8]) -> (r: Result<String, serde_json::Error>)
    ensures
        match r {
            Ok(text) => json_text(literal@) == Some(text@),
            Err(_) => json_text(literal@) is None,
        },
{
    serde_json::from_slice::<String>(literal)
}

/// Whether `literal` can stand for `text` in a record: it is exactly one
/// string literal, holds no line feed, and reads back as `text`.
pub open spec fn stands_for(literal: Seq<u8>, text: Seq<char>) -> bool {
    &&& is_literal(literal)
    &&& !literal.contains(NEWLINE)
    &&& json_text(literal) == Some(text)
}

/// Whether `text` can be written into a record.
pub open spec fn encodable(text: Seq<char>) -> bool {
    json_literal(text) is Some && stands_for(json_literal(text)->0, text)
}

impl EntryView {
    /// Whether the entry can be written as a record.
    pub open spec fn encodable(self) -> bool {
        match self {
            EntryView::Put { key, value } => encodable(key) && encodable(value),
            EntryView::Remove { key } => encodable(key),
        }
    }

    /// The entry with its strings as literals.
    pub open spec fn raw(self) -> RawView {
        match self {
            EntryView::Put { key, value } => RawView::Put {
                key: json_literal(key)->0,
                value: json_literal(value)->0,
            },
            EntryView::Remove { key } => RawView::Remove { key: json_literal(key)->0 },
        }
    }

    /// The line that records the entry.
    pub open spec fn line(self) -> Seq<u8> {
        framed(self.raw())
    }

    /// The bytes that record the entry in a file: its line and a line feed.
    pub open spec fn record(self) -> Seq<u8> {
        self.line().push(NEWLINE)
    }

    /// The key that the entry is about.
    pub open spec fn key(self) -> Seq<char> {
        match self {
            EntryView::Put { key, .. } => key,
            EntryView::Remove { key } => key,
        }
    }
}

/// The entry that a taken-apart record stands for, if its literals can be
/// read.
pub open spec fn read_raw(raw: RawView) -> Option<EntryView> {
    match raw {
        RawView::Put { key, value } => if json_text(key) is Some && json_text(value) is Some {
            Some(EntryView::Put { key: json_text(key)->0, value: json_text(value)->0 })
        } else {
            None
        },
        RawView::Remove { key } => if json_text(key) is Some {
            Some(EntryView::Remove { key: json_text(key)->0 })
        } else {
            None
        },
    }
}

/// The entry that a line records, if it records one.
pub open spec fn decoded(line: Seq<u8>) -> Option<EntryView> {
    match unframed(line) {
        Some(raw) => read_raw(raw),
        None => None,
    }
}

/// A record reads back as the entry that it was written for, and fits on
/// one line.
pub proof fn lemma_decode_encoded(entry: EntryView)
    requires
        entry.encodable(),
    ensures
        decoded(entry.line()) == Some(entry),
        !entry.line().contains(NEWLINE),
{
    lemma_unframe_framed(entry.raw());
    lemma_framed_newline(entry.raw());
}

/// Whether `literal` is exactly one string literal without a line feed.
pub fn fits_frame(literal: &[u8]) -> (r: bool)
    ensures
        r == (is_literal(literal@) && !literal@.contains(NEWLINE)),
{
    let at = find_byte(literal, 0, NEWLINE);
    proof {
        lemma_first_at(literal@, 0, NEWLINE);
    }
    at == literal.len() && is_whole_literal(literal)
}

/// The literal for `text`, where `text` can be written into a record.
pub fn quote(text: &String) -> (r: Option<Vec<u8>>)
    ensures
        match r {
            Some(literal) => encodable(text@) && literal@ == json_literal(text@)->0,
            None => !encodable(text@),
        },
{
    match json_quote(text.as_str()) {
        Ok(literal) => {
            if !fits_frame(literal.as_slice()) {
                return None;
            }
            match json_unquote(literal.as_slice()) {
                Ok(back) => if back == *text {
                    Some(literal)
                } else {
                    None
                },
                Err(_) => None,
            }
        },
        Err(_) => None,
    }
}

/// The text that `literal` stands for, where it can be read.
pub fn unquote(literal: &[u8]) -> (r: Option<String>)
    ensures
        match r {
            Some(text) => json_text(literal@) == Some(text@),
            None => json_text(literal@) is None,
        },
{
    match json_unquote(literal) {
        Ok(text) => Some(text),
        Err(_) => None,
    }
}

impl Entry {
    /// Writes the entry as one line, without the line feed that ends it in
    /// a file. Fails, with `Unencodable`, exactly where a string of the
    /// entry has no literal that reads back as it.
    pub fn encode(&self) -> (r: Result<Vec<u8>, EngineError>)
        ensures
            match r {
                Ok(line) => self@.encodable() && line@ == self@.line(),
                Err(e) => !self@.encodable() && e@ == ErrorView::Serde(CodecFault::Unencodable),
            },
    {
        let raw = match self {
            Entry::Put { key, value } => {
                let k = match quote(key) {
                    Some(k) => k,
                    None => { return Err(EngineError::Serde(CodecFault::Unencodable)); },
                };
                let v = match quote(value) {
                    Some(v) => v,
                    None => { return Err(EngineError::Serde(CodecFault::Unencodable)); },
                };
                RawEntry::Put { key: k, value: v }
            },
            Entry::Remove { key } => {
                let k = match quote(key) {
                    Some(k) => k,
                    None => { return Err(EngineError::Serde(CodecFault::Unencodable)); },
                };
                RawEntry::Remove { key: k }
            },
        };
        Ok(frame(&raw))
    }

    /// Writes the entry as it goes into a log file: its line and a line
    /// feed. Fails as `encode` does.
    pub fn record(&self) -> (r: Result<Vec<u8>, EngineError>)
        ensures
            match r {
                Ok(bytes) => self@.encodable() && bytes@ == self@.record(),
                Err(e) => !self@.encodable() && e@ == ErrorView::Serde(CodecFault::Unencodable),
            },
    {
        match self.encode() {
            Ok(line) => {
                let mut bytes = line;
                bytes.push(NEWLINE);
                Ok(bytes)
            },
            Err(e) => Err(e),
        }
    }

    /// Reads the strings of a taken-apart record.
    pub fn from_raw(raw: &RawEntry) -> (r: Option<Entry>)
        ensures
            match r {
                Some(entry) => read_raw(raw@) == Some(entry@),
                None => read_raw(raw@) is None,
            },
    {
        match raw {
            RawEntry::Put { key, value } => {
                let k = match unquote(key.as_slice()) {
                    Some(k) => k,
                    None => { return None; },
                };
                let v = match unquote(value.as_slice()) {
                    Some(v) => v,
                    None => { return None; },
                };
                Some(Entry::Put { key: k, value: v })
            },
            RawEntry::Remove { key } => {
                match unquote(key.as_slice()) {
                    Some(k) => Some(Entry::Remove { key: k }),
                    None => None,
                }
            },
        }
    }

    /// Reads the entry that `line` records. Fails, with `Malformed`,
    /// exactly where the line records none.
    pub fn decode(line: &[u8]) -> (r: Result<Entry, EngineError>)
        ensures
            match r {
                Ok(entry) => decoded(line@) == Some(entry@),
                Err(e) => decoded(line@) is None && e@ == ErrorView::Serde(CodecFault::Malformed),
            },
    {
        match unframe(line) {
            Some(raw) => match Entry::from_raw(&raw) {
                Some(entry) => Ok(entry),
                None => Err(EngineError::Serde(CodecFault::Malformed)),
            },
            None => Err(EngineError::Serde(CodecFault::Malformed)),
        }
    }
}

} // verus!
