// Errors: decoding engine records, encoding them, and their messages.

use couchbase_lite::error::{check_bool, check_error, check_failure, check_io, check_ptr, failure};
use couchbase_lite::replicator::property_outcome;
use couchbase_lite::{CBLError, CouchbaseLiteError, Error, ErrorCode, FleeceError, NetworkError};

#[test]
fn decode_known_code() {
    let err = CBLError { domain: 1, code: 8, internal_info: 7 };
    let e = Error::new(&err);
    assert_eq!(e.code, ErrorCode::CouchbaseLite(CouchbaseLiteError::Conflict));
    assert_eq!(e.internal_info, Some(7));
    assert_eq!(e.as_cbl_error(), err);
}

#[test]
fn decode_every_domain() {
    let code = |domain, code| Error::new(&CBLError { domain, code, internal_info: 0 }).code;
    assert_eq!(code(1, 1), ErrorCode::CouchbaseLite(CouchbaseLiteError::AssertionFailed));
    assert_eq!(code(1, 30), ErrorCode::CouchbaseLite(CouchbaseLiteError::CantUpgradeDatabase));
    assert_eq!(code(1, 1000), ErrorCode::CouchbaseLite(CouchbaseLiteError::UntranslatableError));
    assert_eq!(code(1, 31), ErrorCode::CouchbaseLite(CouchbaseLiteError::UntranslatableError));
    assert_eq!(code(1, 0), ErrorCode::CouchbaseLite(CouchbaseLiteError::UntranslatableError));
    assert_eq!(code(2, 13), ErrorCode::POSIX(13));
    assert_eq!(code(3, -5), ErrorCode::SQLite(-5));
    assert_eq!(code(4, 5), ErrorCode::Fleece(FleeceError::JSONError));
    assert_eq!(code(4, 12), ErrorCode::CouchbaseLite(CouchbaseLiteError::UntranslatableError));
    assert_eq!(code(5, 15), ErrorCode::Network(NetworkError::TLSCertNameMismatch));
    assert_eq!(code(5, 16), ErrorCode::CouchbaseLite(CouchbaseLiteError::UntranslatableError));
    assert_eq!(code(6, 404), ErrorCode::WebSocket(404));
    assert_eq!(code(7, 1), ErrorCode::CouchbaseLite(CouchbaseLiteError::UntranslatableError));
    assert_eq!(code(0, 1), ErrorCode::CouchbaseLite(CouchbaseLiteError::UntranslatableError));
}

#[test]
fn codes_and_numbers_match() {
    for n in -5..1100 {
        match CouchbaseLiteError::from_i32(n) {
            Some(e) => assert_eq!(e.code(), n),
            None => assert!(n < 1 || (n > 30 && n != 1000)),
        }
        match FleeceError::from_i32(n) {
            Some(e) => assert_eq!(e.code(), n),
            None => assert!(n < 1 || n > 11),
        }
        match NetworkError::from_i32(n) {
            Some(e) => assert_eq!(e.code(), n),
            None => assert!(n < 1 || n > 15),
        }
    }
    assert_eq!(CouchbaseLiteError::NotFound.code(), 7);
    assert_eq!(CouchbaseLiteError::Crypto.code(), 22);
    assert_eq!(FleeceError::MemoryError.code(), 1);
    assert_eq!(NetworkError::Timeout.code(), 3);
}

#[test]
fn default_and_encoding() {
    let d = Error::default();
    assert_eq!(d.code, ErrorCode::CouchbaseLite(CouchbaseLiteError::UntranslatableError));
    assert_eq!(d.internal_info, Some(0));
    let e = Error::cbl_error(CouchbaseLiteError::Busy);
    assert_eq!(e.internal_info, None);
    assert_eq!(e.as_cbl_error(), CBLError { domain: 1, code: 16, internal_info: 0 });
    assert_eq!(Error::fleece_error(8).code, ErrorCode::Fleece(FleeceError::NotFound));
    assert_eq!(
        Error::fleece_error(0).code,
        ErrorCode::CouchbaseLite(CouchbaseLiteError::UntranslatableError)
    );
    let w = Error { code: ErrorCode::WebSocket(-1), internal_info: Some(3) };
    assert_eq!(w.as_cbl_error(), CBLError { domain: 6, code: -1, internal_info: 3 });
    assert_eq!(Error::new(&w.as_cbl_error()), w);
    assert_eq!(ErrorCode::Network(NetworkError::Unknown).domain(), 5);
    assert_eq!(ErrorCode::Network(NetworkError::Unknown).number(), 13);
    assert!(CBLError::default().is_clear());
}

#[test]
fn messages() {
    assert_eq!(Error::default().message(), "Unknown error");
    assert_eq!(Error::cbl_error(CouchbaseLiteError::NotFound).message(), "Document not found");
    assert_eq!(
        Error { code: ErrorCode::POSIX(2), internal_info: None }.message(),
        "POSIX error 2"
    );
    assert_eq!(
        Error { code: ErrorCode::SQLite(-14), internal_info: None }.message(),
        "SQLite error -14"
    );
    assert_eq!(
        Error { code: ErrorCode::WebSocket(i32::MIN), internal_info: None }.message(),
        "WebSocket status -2147483648"
    );
    assert_eq!(
        Error { code: ErrorCode::Network(NetworkError::Timeout), internal_info: None }.message(),
        "No response received before the timeout"
    );
}

#[test]
fn checks() {
    let record = CBLError { domain: 1, code: 7, internal_info: 0 };
    assert!(check_error(&CBLError::default()).is_ok());
    assert!(check_error(&CBLError { domain: 0, code: 7, internal_info: 0 }).is_ok());
    assert!(check_error(&CBLError { domain: 1, code: 0, internal_info: 0 }).is_ok());
    assert_eq!(check_error(&record), Err(Error::new(&record)));
    assert!(check_failure(true, &record).is_ok());
    assert_eq!(check_failure(false, &record), Err(Error::new(&record)));
    assert_eq!(failure::<u8>(record), Err(Error::new(&record)));

    assert!(check_bool(|_: &mut CBLError| true).is_ok());
    assert_eq!(
        check_bool(|e: &mut CBLError| {
            *e = record;
            false
        }),
        Err(Error::new(&record))
    );
    assert_eq!(check_ptr(|_: &mut CBLError| Some(20), |n: i32| n + 1), Ok(21));
    assert_eq!(
        check_ptr(
            |e: &mut CBLError| -> Option<i32> {
                *e = record;
                None
            },
            |n: i32| n + 1
        ),
        Err(Error::new(&record))
    );
    assert_eq!(check_io(|_: &mut CBLError| 12), Ok(12));
    assert_eq!(
        check_io(|e: &mut CBLError| {
            *e = record;
            -1
        }),
        Err(Error::new(&record))
    );
}

#[test]
fn property_outcomes() {
    let clear = CBLError::default();
    let crypto = CBLError { domain: 1, code: 22, internal_info: 0 };
    // bytes from the callback are handed back, and the record stays clear
    assert_eq!(property_outcome(true, Some(Ok(vec![1, 2])), clear), (vec![1, 2], clear));
    // a failed callback and a missing input fail with Crypto
    assert_eq!(property_outcome(true, Some(Err(())), clear), (vec![], crypto));
    assert_eq!(property_outcome(false, Some(Ok(vec![1])), clear), (vec![], crypto));
    assert_eq!(property_outcome(false, None, clear), (vec![], crypto));
    // without a callback nothing is handed back, and the record stays
    assert_eq!(property_outcome(true, None, clear), (vec![], clear));
    // a record that came with an error is written anew from what it decodes to
    let odd = CBLError { domain: 9, code: 5, internal_info: 4 };
    assert_eq!(
        property_outcome(true, Some(Ok(vec![7])), odd),
        (vec![7], CBLError { domain: 1, code: 1000, internal_info: 4 })
    );
}
