//! What a storage engine offers, and the two rules that an engine built
//! on a byte-oriented tree has to keep to give the same answers.

use vstd::prelude::*;
use crate::error::{EngineError, ErrorView};
use crate::protocol::{text_of, utf8_lossy, RequestView};

verus! {

/// What an engine returned for a request, as a mathematical value: the
/// value of a get that hit; nothing for a get that missed, and for a set
/// or a remove that succeeded; or the error.
pub type Outcome = Result<Option<Seq<char>>, ErrorView>;

/// What a set or a remove returned, as an `Outcome`.
pub open spec fn done_outcome(r: Result<(), EngineError>) -> Outcome {
    match r {
        Ok(_) => Ok(None),
        Err(e) => Err(e@),
    }
}

/// What a get returned, as an `Outcome`.
pub open spec fn get_outcome(r: Result<Option<String>, EngineError>) -> Outcome {
    match r {
        Ok(Some(value)) => Ok(Some(value@)),
        Ok(None) => Ok(None),
        Err(e) => Err(e@),
    }
}

/// A storage engine, as the server calls it. A handle is shared among
/// the server's workers: every handle speaks of the same store.
pub trait KvsEngine: Clone + Send + 'static {
    /// Whether the engine can return `outcome` when it is handed
    /// `request`. What an engine returns depends on what it holds, so an
    /// engine that says no more of itself can return anything; the
    /// relation serves to speak of what came back from a call, and of
    /// what was handed to it.
    open spec fn gave(&self, request: RequestView, outcome: Outcome) -> bool {
        true
    }

    /// Sets the value of a key. Fails where the value could not be
    /// written.
    fn set(&self, key: String, value: String) -> (r: Result<(), EngineError>)
        ensures
            self.gave((RequestView::Put { key: key@, value: value@ }), done_outcome(r)),
    ;

    /// Tells the value of a key, or nothing for a key that has none.
    fn get(&self, key: String) -> (r: Result<Option<String>, EngineError>)
        ensures
            self.gave((RequestView::Get { key: key@ }), get_outcome(r)),
    ;

    /// Takes the value of a key away. Fails with `NotFound` where the key
    /// has none.
    fn remove(&self, key: String) -> (r: Result<(), EngineError>)
        ensures
            self.gave((RequestView::Remove { key: key@ }), done_outcome(r)),
    ;
}

/// What a remove of `key` comes to, given what the tree held for the key:
/// `NotFound` where it held nothing.
pub fn removal(key: String, held: bool) -> (r: Result<(), EngineError>)
    ensures
        match r {
            Ok(_) => held,
            Err(e) => !held && e@ == ErrorView::NotFound(key@),
        },
{
    if held {
        Ok(())
    } else {
        Err(EngineError::NotFound(key))
    }
}

/// What a get comes to, given the bytes that the tree held for the key:
/// the text that the bytes are taken for.
pub fn stored_text(held: Option<Vec<u8>>) -> (r: Option<String>)
    ensures
        match (held, r) {
            (Some(bytes), Some(text)) => text@ == utf8_lossy(bytes@),
            (None, None) => true,
            _ => false,
        },
{
    match held {
        Some(bytes) => Some(text_of(bytes.as_slice())),
        None => None,
    }
}

} // verus!
