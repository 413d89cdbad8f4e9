use cykv::{
    answer_done, answer_value, respond, serve, CyKvError, CyStore, Incoming, NoCacheManager,
    Request, Response, Step,
};

fn store() -> CyStore<NoCacheManager> {
    CyStore::open(Vec::new(), NoCacheManager {}).unwrap()
}

#[test]
fn respond_answers_each_request() {
    let mut engine = store();
    assert_eq!(respond(&mut engine, Request::Get { Key: "a".to_owned() }), Response::Success(None));
    assert_eq!(
        respond(&mut engine, Request::Put { Key: "a".to_owned(), Value: "1".to_owned() }),
        Response::Success(None)
    );
    assert_eq!(
        respond(&mut engine, Request::Get { Key: "a".to_owned() }),
        Response::Success(Some("1".to_owned()))
    );
    assert_eq!(
        respond(&mut engine, Request::Remove { Key: "a".to_owned() }),
        Response::Success(None)
    );
    assert_eq!(
        respond(&mut engine, Request::Remove { Key: "a".to_owned() }),
        Response::Failure("key not found:a".to_owned())
    );
    assert_eq!(respond(&mut engine, Request::Get { Key: "a".to_owned() }), Response::Success(None));
}

#[test]
fn serve_replies_closes_or_aborts() {
    let mut engine = store();
    let request = Request::Put { Key: "k".to_owned(), Value: "v".to_owned() };
    assert_eq!(
        serve(&mut engine, Incoming::Request(request)),
        Step::Reply(Response::Success(None))
    );
    assert_eq!(serve(&mut engine, Incoming::Malformed { line: 0, column: 0 }), Step::Close);
    for (line, column) in [(1, 0), (0, 1), (3, 14)] {
        assert_eq!(
            serve(&mut engine, Incoming::Malformed { line, column }),
            Step::Abort(Response::Failure("error when read request".to_owned()))
        );
    }
    assert_eq!(
        serve(&mut engine, Incoming::Request(Request::Get { Key: "k".to_owned() })),
        Step::Reply(Response::Success(Some("v".to_owned())))
    );
}

#[test]
fn every_error_has_its_words() {
    assert_eq!(CyKvError::Io.message(), "IO error");
    assert_eq!(CyKvError::SerdeJson.message(), "serde json");
    assert_eq!(CyKvError::Serialize.message(), "serde bson ser error");
    assert_eq!(CyKvError::Deserialize.message(), "serde bson de error");
    assert_eq!(CyKvError::Internal.message(), "internal error");
    assert_eq!(CyKvError::KeyNotFound("k1".to_owned()).message(), "key not found:k1");
}

fn errors() -> Vec<(CyKvError, &'static str)> {
    vec![
        (CyKvError::Io, "IO error"),
        (CyKvError::SerdeJson, "serde json"),
        (CyKvError::Serialize, "serde bson ser error"),
        (CyKvError::Deserialize, "serde bson de error"),
        (CyKvError::Internal, "internal error"),
        (CyKvError::KeyNotFound("k1".to_owned()), "key not found:k1"),
    ]
}

#[test]
fn a_value_is_answered_as_it_is_and_an_error_with_its_words() {
    assert_eq!(answer_value(Ok(None)), Response::Success(None));
    assert_eq!(answer_value(Ok(Some("v".to_owned()))), Response::Success(Some("v".to_owned())));
    assert_eq!(answer_value(Ok(Some(String::new()))), Response::Success(Some(String::new())));
    for (error, words) in errors() {
        assert_eq!(answer_value(Err(error)), Response::Failure(words.to_owned()));
    }
}

#[test]
fn a_change_is_answered_with_nothing_and_an_error_with_its_words() {
    assert_eq!(answer_done(Ok(())), Response::Success(None));
    for (error, words) in errors() {
        assert_eq!(answer_done(Err(error)), Response::Failure(words.to_owned()));
    }
}

#[test]
fn serve_answers_a_failed_change_and_goes_on() {
    let mut engine = store();
    assert_eq!(
        serve(&mut engine, Incoming::Request(Request::Remove { Key: "gone".to_owned() })),
        Step::Reply(Response::Failure("key not found:gone".to_owned()))
    );
    assert_eq!(
        serve(&mut engine, Incoming::Request(Request::Get { Key: "gone".to_owned() })),
        Step::Reply(Response::Success(None))
    );
    let request = Request::Put { Key: "gone".to_owned(), Value: "back".to_owned() };
    assert_eq!(
        serve(&mut engine, Incoming::Request(request)),
        Step::Reply(Response::Success(None))
    );
    assert_eq!(
        serve(&mut engine, Incoming::Request(Request::Remove { Key: "gone".to_owned() })),
        Step::Reply(Response::Success(None))
    );
    assert_eq!(
        serve(&mut engine, Incoming::Request(Request::Get { Key: "gone".to_owned() })),
        Step::Reply(Response::Success(None))
    );
}
