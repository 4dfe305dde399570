//! The server's part between reading a request and writing a response,
//! and its choice of the engine at start.

use vstd::prelude::*;
use vstd::string::*;
use crate::engine::{done_outcome, get_outcome, KvsEngine, Outcome};
use crate::error::EngineError;
use crate::protocol::{Request, RequestView, Response, ResponseView};

verus! {

/// The text that tells a client that a key has no value.
pub open spec fn not_found_text() -> Seq<char> {
    "Key not found"@
}

fn not_found() -> (r: Response)
    ensures
        r@ == (ResponseView { ok: false, text: Some(not_found_text()) }),
{
    Response { ok: false, text: Some(String::from_str("Key not found")) }
}

/// The response to a get: the value on a hit; on a miss a failure that
/// says that the key was not found; on an error a bare failure.
pub fn respond_get(outcome: Result<Option<String>, EngineError>) -> (r: Response)
    ensures
        r@ == match outcome {
            Ok(Some(value)) => ResponseView { ok: true, text: Some(value@) },
            Ok(None) => ResponseView { ok: false, text: Some(not_found_text()) },
            Err(_) => ResponseView { ok: false, text: None },
        },
{
    match outcome {
        Ok(Some(value)) => Response { ok: true, text: Some(value) },
        Ok(None) => not_found(),
        Err(_) => Response { ok: false, text: None },
    }
}

/// The response to a set: a bare success or a bare failure.
pub fn respond_set(outcome: Result<(), EngineError>) -> (r: Response)
    ensures
        r@ == (ResponseView { ok: outcome is Ok, text: None }),
{
    match outcome {
        Ok(_) => Response { ok: true, text: None },
        Err(_) => Response { ok: false, text: None },
    }
}

/// The response to a remove: a bare success; where the key had no value,
/// a failure that says that the key was not found; on another error a
/// bare failure.
pub fn respond_remove(outcome: Result<(), EngineError>) -> (r: Response)
    ensures
        r@ == match outcome {
            Ok(_) => ResponseView { ok: true, text: None },
            Err(e) => if e@ is NotFound {
                ResponseView { ok: false, text: Some(not_found_text()) }
            } else {
                ResponseView { ok: false, text: None }
            },
        },
{
    match outcome {
        Ok(_) => Response { ok: true, text: None },
        Err(e) => if e.is_not_found() {
            not_found()
        } else {
            Response { ok: false, text: None }
        },
    }
}

/// Whether `response` can answer `request`, whatever the engine did: a
/// set is answered bare; a get with a text if it succeeded, and with the
/// not-found text if it failed with one; a remove bare if it succeeded,
/// and with the not-found text if it failed with one.
pub open spec fn answers(request: RequestView, response: ResponseView) -> bool {
    match request {
        RequestView::Put { .. } => response.text is None,
        RequestView::Get { .. } => if response.ok {
            response.text is Some
        } else {
            response.text is Some ==> response.text == Some(not_found_text())
        },
        RequestView::Remove { .. } => if response.ok {
            response.text is None
        } else {
            response.text is Some ==> response.text == Some(not_found_text())
        },
    }
}

/// Hands the request, as it is, to the engine and makes of what the
/// engine returned for it the response of `response_for`: that of
/// `respond_set`, `respond_get` or `respond_remove`.
pub fn serve<E: KvsEngine>(engine: &E, request: Request) -> (r: Response)
    ensures
        answers(request@, r@),
        exists|outcome: Outcome|
            engine.gave(request@, outcome) && r@ == response_for(request@, outcome),
{
    match request {
        Request::Put { key, value } => {
            let returned = engine.set(key, value);
            let ghost outcome = done_outcome(returned);
            let response = respond_set(returned);
            assert(engine.gave(request@, outcome) && response@ == response_for(
                request@,
                outcome,
            ));
            response
        },
        Request::Get { key } => {
            let returned = engine.get(key);
            let ghost outcome = get_outcome(returned);
            let response = respond_get(returned);
            assert(engine.gave(request@, outcome) && response@ == response_for(
                request@,
                outcome,
            ));
            response
        },
        Request::Remove { key } => {
            let returned = engine.remove(key);
            let ghost outcome = done_outcome(returned);
            let response = respond_remove(returned);
            assert(engine.gave(request@, outcome) && response@ == response_for(
                request@,
                outcome,
            ));
            response
        },
    }
}

/// The response to `request`, given what the engine returned for it. A
/// set is answered with a bare success or a bare failure. A get is
/// answered with the value on a hit, with a failure that says that the
/// key was not found on a miss, and with a bare failure on an error. A
/// remove is answered with a bare success, with a failure that says that
/// the key was not found where the engine said so, and with a bare
/// failure on another error.
pub open spec fn response_for(request: RequestView, outcome: Outcome) -> ResponseView {
    match request {
        RequestView::Put { .. } => ResponseView { ok: outcome is Ok, text: None },
        RequestView::Get { .. } => match outcome {
            Ok(Some(value)) => ResponseView { ok: true, text: Some(value) },
            Ok(None) => ResponseView { ok: false, text: Some(not_found_text()) },
            Err(_) => ResponseView { ok: false, text: None },
        },
        RequestView::Remove { .. } => match outcome {
            Ok(_) => ResponseView { ok: true, text: None },
            Err(e) => if e is NotFound {
                ResponseView { ok: false, text: Some(not_found_text()) }
            } else {
                ResponseView { ok: false, text: None }
            },
        },
    }
}

/// The kinds of engine that a server can run on.
#[derive(Debug, Clone, Copy, PartialEq, Eq, Structural)]
pub enum Engine {
    /// The log-structured store of this library.
    Kvs,
    /// The embedded tree.
    Sled,
}

/// Why a server cannot start.
#[derive(Debug, Clone, Copy, PartialEq, Eq, Structural)]
pub enum ConfigError {
    /// The engine asked for is not the one that the directory was made
    /// with.
    WrongEngine,
    /// No engine was asked for, and the directory names none.
    NoEngine,
}

impl Engine {
    /// The name of the kind, as the marker file holds it.
    pub open spec fn spec_name(self) -> Seq<char> {
        match self {
            Engine::Kvs => "kvs"@,
            Engine::Sled => "sled"@,
        }
    }

    /// The name of the kind, as the marker file holds it.
    pub fn name(&self) -> (r: String)
        ensures
            r@ == self.spec_name(),
    {
        match self {
            Engine::Kvs => String::from_str("kvs"),
            Engine::Sled => String::from_str("sled"),
        }
    }

    /// The kind that a text names: `kvs` or `sled`, and nothing else.
    pub fn parse(text: &str) -> (r: Option<Engine>)
        ensures
            r == if text@ == "kvs"@ {
                Some(Engine::Kvs)
            } else if text@ == "sled"@ {
                Some(Engine::Sled)
            } else {
                None
            },
    {
        let given = String::from_str(text);
        if given == String::from_str("kvs") {
            Some(Engine::Kvs)
        } else if given == String::from_str("sled") {
            Some(Engine::Sled)
        } else {
            None
        }
    }

    /// The engine to run on: the one asked for, unless the directory was
    /// made with the other; the directory's, where none was asked for.
    pub fn select(asked: Option<Engine>, marked: Option<Engine>) -> (r: Result<
        Engine,
        ConfigError,
    >)
        ensures
            r == match (asked, marked) {
                (Some(a), Some(m)) => if a == m {
                    Ok::<Engine, ConfigError>(a)
                } else {
                    Err(ConfigError::WrongEngine)
                },
                (Some(a), None) => Ok(a),
                (None, Some(m)) => Ok(m),
                (None, None) => Err(ConfigError::NoEngine),
            },
    {
        match (asked, marked) {
            (Some(a), Some(m)) => if a == m {
                Ok(a)
            } else {
                Err(ConfigError::WrongEngine)
            },
            (Some(a), None) => Ok(a),
            (None, Some(m)) => Ok(m),
            (None, None) => Err(ConfigError::NoEngine),
        }
    }
}

} // verus!
