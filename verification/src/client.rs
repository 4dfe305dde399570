//! The client's part after the response has come: what to tell the user.

use vstd::prelude::*;
use vstd::string::*;
use crate::error::{EngineError, ErrorView};
use crate::protocol::{Request, RequestView, Response, ResponseView};

verus! {

/// The text of the error that a client reports where the server failed
/// and gave no reason.
pub open spec fn failed_text() -> Seq<char> {
    "request failed"@
}

/// The key that a request is about.
pub open spec fn key_of(request: RequestView) -> Seq<char> {
    match request {
        RequestView::Put { key, .. } => key,
        RequestView::Get { key } => key,
        RequestView::Remove { key } => key,
    }
}

/// What the client is to do with a response: print a text and end well,
/// end well in silence, or end with an error.
pub open spec fn outcome_of(request: RequestView, response: ResponseView) -> Result<
    Option<Seq<char>>,
    ErrorView,
> {
    match request {
        RequestView::Get { .. } => match response.text {
            Some(text) => Ok(Some(text)),
            None => Err(ErrorView::Unknown(failed_text())),
        },
        _ => if response.ok {
            Ok(None)
        } else if response.text is Some {
            Err(ErrorView::NotFound(key_of(request)))
        } else {
            Err(ErrorView::Unknown(failed_text()))
        },
    }
}

/// What the client is to do with the response to its request. The text
/// of a get is printed, be it the value or the word that the key was not
/// found. A set or a remove that succeeded prints nothing. A failure that
/// comes with a reason is that the key was not found; any other is
/// reported as unknown.
pub fn outcome(request: &Request, response: Response) -> (r: Result<Option<String>, EngineError>)
    ensures
        match (r, outcome_of(request@, response@)) {
            (Ok(Some(a)), Ok(Some(b))) => a@ == b,
            (Ok(None), Ok(None)) => true,
            (Err(e), Err(f)) => e@ == f,
            _ => false,
        },
{
    match request {
        Request::Get { key: _ } => match response.text {
            Some(text) => Ok(Some(text)),
            None => Err(EngineError::Unknown(String::from_str("request failed"))),
        },
        Request::Put { key, value: _ } => finish(key, response),
        Request::Remove { key } => finish(key, response),
    }
}

fn finish(key: &String, response: Response) -> (r: Result<Option<String>, EngineError>)
    ensures
        match r {
            Ok(text) => response.ok && text is None,
            Err(e) => !response.ok && e@ == if response.text is Some {
                ErrorView::NotFound(key@)
            } else {
                ErrorView::Unknown(failed_text())
            },
        },
{
    if response.ok {
        Ok(None)
    } else if response.text.is_some() {
        Err(EngineError::NotFound(key.clone()))
    } else {
        Err(EngineError::Unknown(String::from_str("request failed")))
    }
}

} // verus!
