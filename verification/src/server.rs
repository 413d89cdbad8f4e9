//! What the server says to its clients. The sockets are not here: a
//! program around the library reads the requests and sends the answers.
use crate::engine::KvEngine;
use crate::error::CyKvError;
use vstd::prelude::*;
use vstd::string::StringExecFns;

verus! {

/// A request of a client.
#[allow(non_snake_case)]
#[derive(Debug, PartialEq, Eq)]
pub enum Request {
    Get { Key: String },
    /// On the wire its name is `Set`.
    Put { Key: String, Value: String },
    Remove { Key: String },
}

/// The answer to one request. On the wire the names are `Ok` and `Err`.
#[derive(Debug, PartialEq, Eq)]
pub enum Response {
    Success(Option<String>),
    Failure(String),
}

/// What came in on a connection: a request, or bytes that are none, with
/// the line and the column at which the decoder gave up.
#[derive(Debug, PartialEq, Eq)]
pub enum Incoming {
    Request(Request),
    Malformed { line: usize, column: usize },
}

/// What the server does with a connection next.
#[derive(Debug, PartialEq, Eq)]
pub enum Step {
    /// Send the answer, and read on.
    Reply(Response),
    /// The client has closed the connection: stop, without an error.
    Close,
    /// Send the answer, and give the connection up with `SerdeJson`.
    Abort(Response),
}

/// The answer that reports the failure `e`.
pub open spec fn failure_of(response: Response, e: CyKvError) -> bool {
    response matches Response::Failure(text) && text@ == e.words()
}

/// The answer reports a failure: it holds the words of an error.
pub open spec fn fails(response: Response) -> bool {
    exists|e: CyKvError| failure_of(response, e)
}

/// The value that `store` has for `key`, where it has the key.
pub open spec fn lookup(store: Map<Seq<char>, Seq<char>>, key: Seq<char>) -> Option<Seq<char>> {
    if store.contains_key(key) {
        Some(store[key])
    } else {
        None
    }
}

/// The engine is sure to carry `request` out, as it stands.
pub open spec fn promised<E: KvEngine>(engine: E, request: Request) -> bool {
    match request {
        Request::Get { Key } => engine.reliable(),
        Request::Put { Key, Value } => engine.admits_set(Key@, Value@),
        Request::Remove { Key } => engine.admits_remove(Key@),
    }
}

/// `response` answers `request`, for an engine that held `before` when it
/// was asked and holds `after` now, and that was `sure` to carry the
/// request out, or not.
///
/// A `Get` changes nothing, and is answered with the value. A `Put` is
/// answered with nothing, and the key is bound. A `Remove` is answered
/// with nothing, and the key is erased. An engine that was not sure may
/// fail instead: the answer is then the failure, and the engine holds what
/// it held, or what it would hold had it not failed. For a `Remove` of a
/// key that the engine does not have, the failure is `KeyNotFound`.
pub open spec fn answered(
    before: Map<Seq<char>, Seq<char>>,
    after: Map<Seq<char>, Seq<char>>,
    sure: bool,
    request: Request,
    response: Response,
) -> bool {
    match request {
        Request::Get { Key } => {
            &&& after == before
            &&& {
                ||| response matches Response::Success(value) && value.deep_view() == lookup(
                    before,
                    Key@,
                )
                ||| !sure && fails(response)
            }
        },
        Request::Put { Key, Value } => {
            ||| {
                &&& response matches Response::Success(None)
                &&& after == before.insert(Key@, Value@)
            }
            ||| {
                &&& !sure
                &&& fails(response)
                &&& after == before || after == before.insert(Key@, Value@)
            }
        },
        Request::Remove { Key } => {
            ||| {
                &&& response matches Response::Success(None)
                &&& before.contains_key(Key@)
                &&& after == before.remove(Key@)
            }
            ||| {
                &&& !sure
                &&& fails(response)
                &&& after == before || after == before.remove(Key@)
                &&& !before.contains_key(Key@) ==> after == before && failure_of(
                    response,
                    CyKvError::KeyNotFound(Key),
                )
            }
        },
    }
}

/// The answer to a `Get`, from what the engine gave: the value, or the
/// words of the error.
pub fn answer_value(result: Result<Option<String>, CyKvError>) -> (response: Response)
    ensures
        match result {
            Ok(value) => response == Response::Success(value),
            Err(e) => failure_of(response, e),
        },
{
    match result {
        Ok(value) => Response::Success(value),
        Err(e) => Response::Failure(e.message()),
    }
}

/// The answer to a `Put` or a `Remove`, from what the engine gave:
/// nothing, or the words of the error.
pub fn answer_done(result: Result<(), CyKvError>) -> (response: Response)
    ensures
        match result {
            Ok(_) => response == Response::Success(None),
            Err(e) => failure_of(response, e),
        },
{
    match result {
        Ok(_) => Response::Success(None),
        Err(e) => Response::Failure(e.message()),
    }
}

/// Carries out one request on the engine, and gives the answer to it: the
/// value for a `Get`, nothing for a `Put` or a `Remove` that was done, and
/// the words of the error for one that failed.
pub fn respond<E: KvEngine>(engine: &mut E, request: Request) -> (response: Response)
    requires
        old(engine).wf(),
    ensures
        final(engine).wf(),
        final(engine).reliable() == old(engine).reliable(),
        answered(
            old(engine).view(),
            final(engine).view(),
            promised(*old(engine), request),
            request,
            response,
        ),
{
    match request {
        Request::Get { Key: key } => {
            let result = engine.get(key);
            let ghost given = result;
            let response = answer_value(result);
            proof {
                if given is Err {
                    assert(failure_of(response, given->Err_0));
                }
            }
            response
        },
        Request::Put { Key: key, Value: value } => {
            let result = engine.set(key, value);
            let ghost given = result;
            let response = answer_done(result);
            proof {
                if given is Err {
                    assert(failure_of(response, given->Err_0));
                }
            }
            response
        },
        Request::Remove { Key: key } => {
            let result = engine.remove(key);
            let ghost given = result;
            let response = answer_done(result);
            proof {
                if given is Err {
                    assert(failure_of(response, given->Err_0));
                }
            }
            response
        },
    }
}

/// Decides what to do with what came in on a connection. A request is
/// carried out and answered. Bytes that are no request end the
/// connection: without an error where the decoder gave up at line 0 and
/// column 0, which is how the end of the stream shows, and else with an
/// answer that says so.
pub fn serve<E: KvEngine>(engine: &mut E, incoming: Incoming) -> (step: Step)
    requires
        old(engine).wf(),
    ensures
        final(engine).wf(),
        match incoming {
            Incoming::Malformed { line, column } => {
                &&& final(engine).view() == old(engine).view()
                &&& final(engine).reliable() == old(engine).reliable()
                &&& if line == 0 && column == 0 {
                    step is Close
                } else {
                    step matches Step::Abort(Response::Failure(text)) && text@
                        == "error when read request"@
                }
            },
            Incoming::Request(request) => {
                &&& step matches Step::Reply(response)
                &&& final(engine).reliable() == old(engine).reliable()
                &&& answered(
                    old(engine).view(),
                    final(engine).view(),
                    promised(*old(engine), request),
                    request,
                    response,
                )
            },
        },
{
    match incoming {
        Incoming::Malformed { line, column } => {
            if line == 0 && column == 0 {
                Step::Close
            } else {
                Step::Abort(Response::Failure(String::from_str("error when read request")))
            }
        },
        Incoming::Request(request) => Step::Reply(respond(engine, request)),
    }
}

} // verus!
