//! Errors: a domain-tagged code, decoded from and encoded to the plain error
//! record that the storage and replication engine hands across its boundary.

use crate::text::{decimal_text, push_decimal};
use vstd::prelude::*;

verus! {

/// Domain number of the database engine's own errors.
pub const DOMAIN_COUCHBASE_LITE: u8 = 1;

/// Domain number of POSIX `errno` values.
pub const DOMAIN_POSIX: u8 = 2;

/// Domain number of the storage layer's status codes.
pub const DOMAIN_SQLITE: u8 = 3;

/// Domain number of the value encoding's errors.
pub const DOMAIN_FLEECE: u8 = 4;

/// Domain number of network errors.
pub const DOMAIN_NETWORK: u8 = 5;

/// Domain number of WebSocket close codes and HTTP statuses.
pub const DOMAIN_WEB_SOCKET: u8 = 6;

/// Error codes of the database engine.
#[derive(Debug, Clone, Copy, PartialEq, Eq, Structural)]
pub enum CouchbaseLiteError {
    /// Internal assertion failure (code 1).
    AssertionFailed,
    /// An API call that is not implemented (code 2).
    Unimplemented,
    /// Unsupported encryption algorithm (code 3).
    UnsupportedEncryption,
    /// Invalid revision ID syntax (code 4).
    BadRevisionID,
    /// Revision contains corrupted or unreadable data (code 5).
    CorruptRevisionData,
    /// Database, key store or index is not open (code 6).
    NotOpen,
    /// Document not found (code 7).
    NotFound,
    /// Document update conflict (code 8).
    Conflict,
    /// Invalid function parameter or struct value (code 9).
    InvalidParameter,
    /// Internal unexpected failure (code 10).
    UnexpectedError,
    /// Database file cannot be opened; it may not exist (code 11).
    CantOpenFile,
    /// File I/O error (code 12).
    IOError,
    /// Memory allocation failed (code 13).
    MemoryError,
    /// File is not writeable (code 14).
    NotWriteable,
    /// Data is corrupted (code 15).
    CorruptData,
    /// Database is busy or locked (code 16).
    Busy,
    /// Function must be called while in a transaction (code 17).
    NotInTransaction,
    /// Database cannot be closed while a transaction is open (code 18).
    TransactionNotClosed,
    /// Operation not supported in this database (code 19).
    Unsupported,
    /// File is not a database, or the encryption key is wrong (code 20).
    NotADatabaseFile,
    /// Database exists but not in the format or storage requested (code 21).
    WrongFormat,
    /// Encryption or decryption error (code 22).
    Crypto,
    /// Invalid query (code 23).
    InvalidQuery,
    /// No such index, or the query requires a nonexistent index (code 24).
    MissingIndex,
    /// Unknown query parameter name, or parameter number out of range (code 25).
    InvalidQueryParam,
    /// Unknown error from the remote server (code 26).
    RemoteError,
    /// Database file format is older than what can be opened (code 27).
    DatabaseTooOld,
    /// Database file format is newer than what can be opened (code 28).
    DatabaseTooNew,
    /// Invalid document ID (code 29).
    BadDocID,
    /// Database cannot be upgraded (code 30).
    CantUpgradeDatabase,
    /// An engine error that has no counterpart here (code 1000).
    UntranslatableError,
}

impl CouchbaseLiteError {
    /// The number that stands for this variant in an engine error record.
    pub open spec fn spec_code(&self) -> i32 {
        match self {
            CouchbaseLiteError::AssertionFailed => 1i32,
            CouchbaseLiteError::Unimplemented => 2i32,
            CouchbaseLiteError::UnsupportedEncryption => 3i32,
            CouchbaseLiteError::BadRevisionID => 4i32,
            CouchbaseLiteError::CorruptRevisionData => 5i32,
            CouchbaseLiteError::NotOpen => 6i32,
            CouchbaseLiteError::NotFound => 7i32,
            CouchbaseLiteError::Conflict => 8i32,
            CouchbaseLiteError::InvalidParameter => 9i32,
            CouchbaseLiteError::UnexpectedError => 10i32,
            CouchbaseLiteError::CantOpenFile => 11i32,
            CouchbaseLiteError::IOError => 12i32,
            CouchbaseLiteError::MemoryError => 13i32,
            CouchbaseLiteError::NotWriteable => 14i32,
            CouchbaseLiteError::CorruptData => 15i32,
            CouchbaseLiteError::Busy => 16i32,
            CouchbaseLiteError::NotInTransaction => 17i32,
            CouchbaseLiteError::TransactionNotClosed => 18i32,
            CouchbaseLiteError::Unsupported => 19i32,
            CouchbaseLiteError::NotADatabaseFile => 20i32,
            CouchbaseLiteError::WrongFormat => 21i32,
            CouchbaseLiteError::Crypto => 22i32,
            CouchbaseLiteError::InvalidQuery => 23i32,
            CouchbaseLiteError::MissingIndex => 24i32,
            CouchbaseLiteError::InvalidQueryParam => 25i32,
            CouchbaseLiteError::RemoteError => 26i32,
            CouchbaseLiteError::DatabaseTooOld => 27i32,
            CouchbaseLiteError::DatabaseTooNew => 28i32,
            CouchbaseLiteError::BadDocID => 29i32,
            CouchbaseLiteError::CantUpgradeDatabase => 30i32,
            CouchbaseLiteError::UntranslatableError => 1000i32,
        }
    }

    /// The variant whose number is `n`, if there is one.
    pub open spec fn spec_from_i32(n: i32) -> Option<Self> {
        if exists|e: Self| e.spec_code() == n {
            Some(choose|e: Self| e.spec_code() == n)
        } else {
            None
        }
    }

    /// The number of this variant.
    pub fn code(&self) -> (c: i32)
        ensures
            c == self.spec_code(),
    {
        match self {
            CouchbaseLiteError::AssertionFailed => 1i32,
            CouchbaseLiteError::Unimplemented => 2i32,
            CouchbaseLiteError::UnsupportedEncryption => 3i32,
            CouchbaseLiteError::BadRevisionID => 4i32,
            CouchbaseLiteError::CorruptRevisionData => 5i32,
            CouchbaseLiteError::NotOpen => 6i32,
            CouchbaseLiteError::NotFound => 7i32,
            CouchbaseLiteError::Conflict => 8i32,
            CouchbaseLiteError::InvalidParameter => 9i32,
            CouchbaseLiteError::UnexpectedError => 10i32,
            CouchbaseLiteError::CantOpenFile => 11i32,
            CouchbaseLiteError::IOError => 12i32,
            CouchbaseLiteError::MemoryError => 13i32,
            CouchbaseLiteError::NotWriteable => 14i32,
            CouchbaseLiteError::CorruptData => 15i32,
            CouchbaseLiteError::Busy => 16i32,
            CouchbaseLiteError::NotInTransaction => 17i32,
            CouchbaseLiteError::TransactionNotClosed => 18i32,
            CouchbaseLiteError::Unsupported => 19i32,
            CouchbaseLiteError::NotADatabaseFile => 20i32,
            CouchbaseLiteError::WrongFormat => 21i32,
            CouchbaseLiteError::Crypto => 22i32,
            CouchbaseLiteError::InvalidQuery => 23i32,
            CouchbaseLiteError::MissingIndex => 24i32,
            CouchbaseLiteError::InvalidQueryParam => 25i32,
            CouchbaseLiteError::RemoteError => 26i32,
            CouchbaseLiteError::DatabaseTooOld => 27i32,
            CouchbaseLiteError::DatabaseTooNew => 28i32,
            CouchbaseLiteError::BadDocID => 29i32,
            CouchbaseLiteError::CantUpgradeDatabase => 30i32,
            CouchbaseLiteError::UntranslatableError => 1000i32,
        }
    }

    /// Decodes a number: the variant that carries it, or `None` for a number
    /// that no variant carries.
    pub fn from_i32(n: i32) -> (r: Option<Self>)
        ensures
            r == Self::spec_from_i32(n),
            r matches Some(e) ==> e.spec_code() == n,
            r is None ==> forall|e: Self| e.spec_code() != n,
    {
        let r = match n {
            1i32 => Some(CouchbaseLiteError::AssertionFailed),
            2i32 => Some(CouchbaseLiteError::Unimplemented),
            3i32 => Some(CouchbaseLiteError::UnsupportedEncryption),
            4i32 => Some(CouchbaseLiteError::BadRevisionID),
            5i32 => Some(CouchbaseLiteError::CorruptRevisionData),
            6i32 => Some(CouchbaseLiteError::NotOpen),
            7i32 => Some(CouchbaseLiteError::NotFound),
            8i32 => Some(CouchbaseLiteError::Conflict),
            9i32 => Some(CouchbaseLiteError::InvalidParameter),
            10i32 => Some(CouchbaseLiteError::UnexpectedError),
            11i32 => Some(CouchbaseLiteError::CantOpenFile),
            12i32 => Some(CouchbaseLiteError::IOError),
            13i32 => Some(CouchbaseLiteError::MemoryError),
            14i32 => Some(CouchbaseLiteError::NotWriteable),
            15i32 => Some(CouchbaseLiteError::CorruptData),
            16i32 => Some(CouchbaseLiteError::Busy),
            17i32 => Some(CouchbaseLiteError::NotInTransaction),
            18i32 => Some(CouchbaseLiteError::TransactionNotClosed),
            19i32 => Some(CouchbaseLiteError::Unsupported),
            20i32 => Some(CouchbaseLiteError::NotADatabaseFile),
            21i32 => Some(CouchbaseLiteError::WrongFormat),
            22i32 => Some(CouchbaseLiteError::Crypto),
            23i32 => Some(CouchbaseLiteError::InvalidQuery),
            24i32 => Some(CouchbaseLiteError::MissingIndex),
            25i32 => Some(CouchbaseLiteError::InvalidQueryParam),
            26i32 => Some(CouchbaseLiteError::RemoteError),
            27i32 => Some(CouchbaseLiteError::DatabaseTooOld),
            28i32 => Some(CouchbaseLiteError::DatabaseTooNew),
            29i32 => Some(CouchbaseLiteError::BadDocID),
            30i32 => Some(CouchbaseLiteError::CantUpgradeDatabase),
            1000i32 => Some(CouchbaseLiteError::UntranslatableError),
            _ => None,
        };
        proof {
            Self::lemma_code_is_injective();
            if let Some(e) = r {
                assert(e.spec_code() == n);
                let c = choose|x: Self| x.spec_code() == n;
                assert(c.spec_code() == n);
                assert(c == e);
            }
            if r is None {
                assert forall|e: Self| e.spec_code() != n by {
                    Self::lemma_code_range(e);
                }
            }
        }
        r
    }

    /// Every variant's number is one of those that `from_i32` decodes.
    proof fn lemma_code_range(e: Self)
        ensures
            e.spec_code() == 1 || e.spec_code() == 2 || e.spec_code() == 3 || e.spec_code() == 4 || e.spec_code() == 5 || e.spec_code() == 6 || e.spec_code() == 7 || e.spec_code() == 8 || e.spec_code() == 9 || e.spec_code() == 10 || e.spec_code() == 11 || e.spec_code() == 12 || e.spec_code() == 13 || e.spec_code() == 14 || e.spec_code() == 15 || e.spec_code() == 16 || e.spec_code() == 17 || e.spec_code() == 18 || e.spec_code() == 19 || e.spec_code() == 20 || e.spec_code() == 21 || e.spec_code() == 22 || e.spec_code() == 23 || e.spec_code() == 24 || e.spec_code() == 25 || e.spec_code() == 26 || e.spec_code() == 27 || e.spec_code() == 28 || e.spec_code() == 29 || e.spec_code() == 30 || e.spec_code() == 1000,
    {
    }

    /// Two variants with one number are the same variant.
    pub proof fn lemma_code_is_injective()
        ensures
            forall|a: Self, b: Self| a.spec_code() == b.spec_code() ==> a == b,
    {
    }

    /// Decoding the number of a variant gives that variant back.
    pub proof fn lemma_from_code_round_trip(e: Self)
        ensures
            Self::spec_from_i32(e.spec_code()) == Some(e),
    {
        Self::lemma_code_is_injective();
    }
}

/// Error codes of the value encoding.
#[derive(Debug, Clone, Copy, PartialEq, Eq, Structural)]
pub enum FleeceError {
    /// Out of memory, or allocation failed (code 1).
    MemoryError,
    /// Array index or iterator out of range (code 2).
    OutOfRange,
    /// Bad input data (a non-string key and the like) (code 3).
    InvalidData,
    /// Structural error while encoding (code 4).
    EncodeError,
    /// Error parsing JSON (code 5).
    JSONError,
    /// Unparseable data in a value (code 6).
    UnknownValue,
    /// Something that should not happen (code 7).
    InternalError,
    /// Key not found (code 8).
    NotFound,
    /// Misuse of shared keys (code 9).
    SharedKeysStateError,
    /// Something went wrong at the OS level (code 10).
    POSIXError,
    /// Operation is unsupported (code 11).
    Unsupported,
}

impl FleeceError {
    /// The number that stands for this variant in an engine error record.
    pub open spec fn spec_code(&self) -> i32 {
        match self {
            FleeceError::MemoryError => 1i32,
            FleeceError::OutOfRange => 2i32,
            FleeceError::InvalidData => 3i32,
            FleeceError::EncodeError => 4i32,
            FleeceError::JSONError => 5i32,
            FleeceError::UnknownValue => 6i32,
            FleeceError::InternalError => 7i32,
            FleeceError::NotFound => 8i32,
            FleeceError::SharedKeysStateError => 9i32,
            FleeceError::POSIXError => 10i32,
            FleeceError::Unsupported => 11i32,
        }
    }

    /// The variant whose number is `n`, if there is one.
    pub open spec fn spec_from_i32(n: i32) -> Option<Self> {
        if exists|e: Self| e.spec_code() == n {
            Some(choose|e: Self| e.spec_code() == n)
        } else {
            None
        }
    }

    /// The number of this variant.
    pub fn code(&self) -> (c: i32)
        ensures
            c == self.spec_code(),
    {
        match self {
            FleeceError::MemoryError => 1i32,
            FleeceError::OutOfRange => 2i32,
            FleeceError::InvalidData => 3i32,
            FleeceError::EncodeError => 4i32,
            FleeceError::JSONError => 5i32,
            FleeceError::UnknownValue => 6i32,
            FleeceError::InternalError => 7i32,
            FleeceError::NotFound => 8i32,
            FleeceError::SharedKeysStateError => 9i32,
            FleeceError::POSIXError => 10i32,
            FleeceError::Unsupported => 11i32,
        }
    }

    /// Decodes a number: the variant that carries it, or `None` for a number
    /// that no variant carries.
    pub fn from_i32(n: i32) -> (r: Option<Self>)
        ensures
            r == Self::spec_from_i32(n),
            r matches Some(e) ==> e.spec_code() == n,
            r is None ==> forall|e: Self| e.spec_code() != n,
    {
        let r = match n {
            1i32 => Some(FleeceError::MemoryError),
            2i32 => Some(FleeceError::OutOfRange),
            3i32 => Some(FleeceError::InvalidData),
            4i32 => Some(FleeceError::EncodeError),
            5i32 => Some(FleeceError::JSONError),
            6i32 => Some(FleeceError::UnknownValue),
            7i32 => Some(FleeceError::InternalError),
            8i32 => Some(FleeceError::NotFound),
            9i32 => Some(FleeceError::SharedKeysStateError),
            10i32 => Some(FleeceError::POSIXError),
            11i32 => Some(FleeceError::Unsupported),
            _ => None,
        };
        proof {
            Self::lemma_code_is_injective();
            if let Some(e) = r {
                assert(e.spec_code() == n);
                let c = choose|x: Self| x.spec_code() == n;
                assert(c.spec_code() == n);
                assert(c == e);
            }
            if r is None {
                assert forall|e: Self| e.spec_code() != n by {
                    Self::lemma_code_range(e);
                }
            }
        }
        r
    }

    /// Every variant's number is one of those that `from_i32` decodes.
    proof fn lemma_code_range(e: Self)
        ensures
            e.spec_code() == 1 || e.spec_code() == 2 || e.spec_code() == 3 || e.spec_code() == 4 || e.spec_code() == 5 || e.spec_code() == 6 || e.spec_code() == 7 || e.spec_code() == 8 || e.spec_code() == 9 || e.spec_code() == 10 || e.spec_code() == 11,
    {
    }

    /// Two variants with one number are the same variant.
    pub proof fn lemma_code_is_injective()
        ensures
            forall|a: Self, b: Self| a.spec_code() == b.spec_code() ==> a == b,
    {
    }

    /// Decoding the number of a variant gives that variant back.
    pub proof fn lemma_from_code_round_trip(e: Self)
        ensures
            Self::spec_from_i32(e.spec_code()) == Some(e),
    {
        Self::lemma_code_is_injective();
    }
}

/// Error codes of the network layer.
#[derive(Debug, Clone, Copy, PartialEq, Eq, Structural)]
pub enum NetworkError {
    /// DNS lookup failed (code 1).
    DNSFailure,
    /// DNS server does not know the host name (code 2).
    UnknownHost,
    /// No response received before the timeout (code 3).
    Timeout,
    /// Invalid URL (code 4).
    InvalidURL,
    /// HTTP redirect loop (code 5).
    TooManyRedirects,
    /// Low-level error establishing TLS (code 6).
    TLSHandshakeFailed,
    /// Server's TLS certificate has expired (code 7).
    TLSCertExpired,
    /// Certificate is not trusted for another reason (code 8).
    TLSCertUntrusted,
    /// Server requires the client to have a TLS certificate (code 9).
    TLSClientCertRequired,
    /// Server rejected the client's TLS certificate (code 10).
    TLSClientCertRejected,
    /// Self-signed certificate, or unknown anchor certificate (code 11).
    TLSCertUnknownRoot,
    /// Attempted redirect to an invalid URL (code 12).
    InvalidRedirect,
    /// Unknown networking error (code 13).
    Unknown,
    /// Server's certificate has been revoked (code 14).
    TLSCertRevoked,
    /// Server certificate's name does not match the DNS name (code 15).
    TLSCertNameMismatch,
}

impl NetworkError {
    /// The number that stands for this variant in an engine error record.
    pub open spec fn spec_code(&self) -> i32 {
        match self {
            NetworkError::DNSFailure => 1i32,
            NetworkError::UnknownHost => 2i32,
            NetworkError::Timeout => 3i32,
            NetworkError::InvalidURL => 4i32,
            NetworkError::TooManyRedirects => 5i32,
            NetworkError::TLSHandshakeFailed => 6i32,
            NetworkError::TLSCertExpired => 7i32,
            NetworkError::TLSCertUntrusted => 8i32,
            NetworkError::TLSClientCertRequired => 9i32,
            NetworkError::TLSClientCertRejected => 10i32,
            NetworkError::TLSCertUnknownRoot => 11i32,
            NetworkError::InvalidRedirect => 12i32,
            NetworkError::Unknown => 13i32,
            NetworkError::TLSCertRevoked => 14i32,
            NetworkError::TLSCertNameMismatch => 15i32,
        }
    }

    /// The variant whose number is `n`, if there is one.
    pub open spec fn spec_from_i32(n: i32) -> Option<Self> {
        if exists|e: Self| e.spec_code() == n {
            Some(choose|e: Self| e.spec_code() == n)
        } else {
            None
        }
    }

    /// The number of this variant.
    pub fn code(&self) -> (c: i32)
        ensures
            c == self.spec_code(),
    {
        match self {
            NetworkError::DNSFailure => 1i32,
            NetworkError::UnknownHost => 2i32,
            NetworkError::Timeout => 3i32,
            NetworkError::InvalidURL => 4i32,
            NetworkError::TooManyRedirects => 5i32,
            NetworkError::TLSHandshakeFailed => 6i32,
            NetworkError::TLSCertExpired => 7i32,
            NetworkError::TLSCertUntrusted => 8i32,
            NetworkError::TLSClientCertRequired => 9i32,
            NetworkError::TLSClientCertRejected => 10i32,
            NetworkError::TLSCertUnknownRoot => 11i32,
            NetworkError::InvalidRedirect => 12i32,
            NetworkError::Unknown => 13i32,
            NetworkError::TLSCertRevoked => 14i32,
            NetworkError::TLSCertNameMismatch => 15i32,
        }
    }

    /// Decodes a number: the variant that carries it, or `None` for a number
    /// that no variant carries.
    pub fn from_i32(n: i32) -> (r: Option<Self>)
        ensures
            r == Self::spec_from_i32(n),
            r matches Some(e) ==> e.spec_code() == n,
            r is None ==> forall|e: Self| e.spec_code() != n,
    {
        let r = match n {
            1i32 => Some(NetworkError::DNSFailure),
            2i32 => Some(NetworkError::UnknownHost),
            3i32 => Some(NetworkError::Timeout),
            4i32 => Some(NetworkError::InvalidURL),
            5i32 => Some(NetworkError::TooManyRedirects),
            6i32 => Some(NetworkError::TLSHandshakeFailed),
            7i32 => Some(NetworkError::TLSCertExpired),
            8i32 => Some(NetworkError::TLSCertUntrusted),
            9i32 => Some(NetworkError::TLSClientCertRequired),
            10i32 => Some(NetworkError::TLSClientCertRejected),
            11i32 => Some(NetworkError::TLSCertUnknownRoot),
            12i32 => Some(NetworkError::InvalidRedirect),
            13i32 => Some(NetworkError::Unknown),
            14i32 => Some(NetworkError::TLSCertRevoked),
            15i32 => Some(NetworkError::TLSCertNameMismatch),
            _ => None,
        };
        proof {
            Self::lemma_code_is_injective();
            if let Some(e) = r {
                assert(e.spec_code() == n);
                let c = choose|x: Self| x.spec_code() == n;
                assert(c.spec_code() == n);
                assert(c == e);
            }
            if r is None {
                assert forall|e: Self| e.spec_code() != n by {
                    Self::lemma_code_range(e);
                }
            }
        }
        r
    }

    /// Every variant's number is one of those that `from_i32` decodes.
    proof fn lemma_code_range(e: Self)
        ensures
            e.spec_code() == 1 || e.spec_code() == 2 || e.spec_code() == 3 || e.spec_code() == 4 || e.spec_code() == 5 || e.spec_code() == 6 || e.spec_code() == 7 || e.spec_code() == 8 || e.spec_code() == 9 || e.spec_code() == 10 || e.spec_code() == 11 || e.spec_code() == 12 || e.spec_code() == 13 || e.spec_code() == 14 || e.spec_code() == 15,
    {
    }

    /// Two variants with one number are the same variant.
    pub proof fn lemma_code_is_injective()
        ensures
            forall|a: Self, b: Self| a.spec_code() == b.spec_code() ==> a == b,
    {
    }

    /// Decoding the number of a variant gives that variant back.
    pub proof fn lemma_from_code_round_trip(e: Self)
        ensures
            Self::spec_from_i32(e.spec_code()) == Some(e),
    {
        Self::lemma_code_is_injective();
    }
}

/// The error record of the engine: a domain number, a code within the domain,
/// and a word of internal information. A code of 0 means "no error".
#[derive(Debug, Clone, Copy, PartialEq, Eq, Structural)]
pub struct CBLError {
    pub domain: u8,
    pub code: i32,
    pub internal_info: u32,
}

impl Default for CBLError {
    fn default() -> (r: Self)
        ensures
            r == (CBLError { domain: 0, code: 0, internal_info: 0 }),
    {
        CBLError { domain: 0, code: 0, internal_info: 0 }
    }
}

impl CBLError {
    /// True when the record carries no error, that is when its code is 0.
    pub fn is_clear(&self) -> (r: bool)
        ensures
            r == (self.code == 0),
    {
        self.code == 0
    }
}

/// The domain and code of an `Error`.
#[derive(Debug, Clone, Copy, PartialEq, Eq, Structural)]
pub enum ErrorCode {
    CouchbaseLite(CouchbaseLiteError),
    POSIX(i32),
    SQLite(i32),
    Fleece(FleeceError),
    Network(NetworkError),
    WebSocket(i32),
}

impl ErrorCode {
    /// The code that stands for every engine error without a counterpart here.
    pub open spec fn spec_untranslatable() -> ErrorCode {
        ErrorCode::CouchbaseLite(CouchbaseLiteError::UntranslatableError)
    }

    /// What a code of the value encoding decodes to.
    pub open spec fn spec_from_fleece(code: i32) -> ErrorCode {
        match FleeceError::spec_from_i32(code) {
            Some(e) => ErrorCode::Fleece(e),
            None => Self::spec_untranslatable(),
        }
    }

    /// What an engine error record decodes to: the typed code of its domain, the
    /// raw code for the pass-through domains, and the untranslatable code for an
    /// unknown domain or an unknown code of a typed domain.
    pub open spec fn spec_new(err: CBLError) -> ErrorCode {
        if err.domain == DOMAIN_COUCHBASE_LITE {
            match CouchbaseLiteError::spec_from_i32(err.code) {
                Some(e) => ErrorCode::CouchbaseLite(e),
                None => Self::spec_untranslatable(),
            }
        } else if err.domain == DOMAIN_NETWORK {
            match NetworkError::spec_from_i32(err.code) {
                Some(e) => ErrorCode::Network(e),
                None => Self::spec_untranslatable(),
            }
        } else if err.domain == DOMAIN_POSIX {
            ErrorCode::POSIX(err.code)
        } else if err.domain == DOMAIN_SQLITE {
            ErrorCode::SQLite(err.code)
        } else if err.domain == DOMAIN_FLEECE {
            Self::spec_from_fleece(err.code)
        } else if err.domain == DOMAIN_WEB_SOCKET {
            ErrorCode::WebSocket(err.code)
        } else {
            Self::spec_untranslatable()
        }
    }

    /// The domain number under which this code travels.
    pub open spec fn spec_domain(&self) -> u8 {
        match self {
            ErrorCode::CouchbaseLite(_) => DOMAIN_COUCHBASE_LITE,
            ErrorCode::POSIX(_) => DOMAIN_POSIX,
            ErrorCode::SQLite(_) => DOMAIN_SQLITE,
            ErrorCode::Fleece(_) => DOMAIN_FLEECE,
            ErrorCode::Network(_) => DOMAIN_NETWORK,
            ErrorCode::WebSocket(_) => DOMAIN_WEB_SOCKET,
        }
    }

    /// The number of this code within its domain.
    pub open spec fn spec_number(&self) -> i32 {
        match self {
            ErrorCode::CouchbaseLite(e) => e.spec_code(),
            ErrorCode::POSIX(n) => *n,
            ErrorCode::SQLite(n) => *n,
            ErrorCode::Fleece(e) => e.spec_code(),
            ErrorCode::Network(e) => e.spec_code(),
            ErrorCode::WebSocket(n) => *n,
        }
    }

    /// Decodes an engine error record.
    pub fn new(err: &CBLError) -> (r: ErrorCode)
        ensures
            r == Self::spec_new(*err),
    {
        if err.domain == DOMAIN_COUCHBASE_LITE {
            match CouchbaseLiteError::from_i32(err.code) {
                Some(e) => ErrorCode::CouchbaseLite(e),
                None => Self::untranslatable(),
            }
        } else if err.domain == DOMAIN_NETWORK {
            match NetworkError::from_i32(err.code) {
                Some(e) => ErrorCode::Network(e),
                None => Self::untranslatable(),
            }
        } else if err.domain == DOMAIN_POSIX {
            ErrorCode::POSIX(err.code)
        } else if err.domain == DOMAIN_SQLITE {
            ErrorCode::SQLite(err.code)
        } else if err.domain == DOMAIN_FLEECE {
            Self::from_fleece(err.code)
        } else if err.domain == DOMAIN_WEB_SOCKET {
            ErrorCode::WebSocket(err.code)
        } else {
            Self::untranslatable()
        }
    }

    /// Decodes a code of the value encoding.
    pub fn from_fleece(fleece_error: i32) -> (r: ErrorCode)
        ensures
            r == Self::spec_from_fleece(fleece_error),
    {
        match FleeceError::from_i32(fleece_error) {
            Some(e) => ErrorCode::Fleece(e),
            None => Self::untranslatable(),
        }
    }

    /// The code for an engine error whose domain is not known.
    pub fn untranslatable() -> (r: ErrorCode)
        ensures
            r == Self::spec_untranslatable(),
    {
        ErrorCode::CouchbaseLite(CouchbaseLiteError::UntranslatableError)
    }

    /// The domain number under which this code travels.
    pub fn domain(&self) -> (d: u8)
        ensures
            d == self.spec_domain(),
    {
        match self {
            ErrorCode::CouchbaseLite(_) => DOMAIN_COUCHBASE_LITE,
            ErrorCode::POSIX(_) => DOMAIN_POSIX,
            ErrorCode::SQLite(_) => DOMAIN_SQLITE,
            ErrorCode::Fleece(_) => DOMAIN_FLEECE,
            ErrorCode::Network(_) => DOMAIN_NETWORK,
            ErrorCode::WebSocket(_) => DOMAIN_WEB_SOCKET,
        }
    }

    /// The number of this code within its domain.
    pub fn number(&self) -> (n: i32)
        ensures
            n == self.spec_number(),
    {
        match self {
            ErrorCode::CouchbaseLite(e) => e.code(),
            ErrorCode::POSIX(n) => *n,
            ErrorCode::SQLite(n) => *n,
            ErrorCode::Fleece(e) => e.code(),
            ErrorCode::Network(e) => e.code(),
            ErrorCode::WebSocket(n) => *n,
        }
    }
}

/// An error: its code, and the engine's internal information where the error
/// came from an engine record.
#[derive(Debug, Clone, Copy, PartialEq, Eq, Structural)]
pub struct Error {
    pub code: ErrorCode,
    pub internal_info: Option<u32>,
}

impl Error {
    /// What an engine error record decodes to.
    pub open spec fn spec_new(err: CBLError) -> Error {
        Error { code: ErrorCode::spec_new(err), internal_info: Some(err.internal_info) }
    }

    /// The engine error record that this error encodes to.
    pub open spec fn spec_as_cbl_error(&self) -> CBLError {
        CBLError {
            domain: self.code.spec_domain(),
            code: self.code.spec_number(),
            internal_info: match self.internal_info {
                Some(info) => info,
                None => 0,
            },
        }
    }

    /// The error that the empty engine record decodes to. Its domain is unknown,
    /// so its code is the untranslatable one.
    pub fn default() -> (r: Error)
        ensures
            r == Self::spec_new(CBLError { domain: 0, code: 0, internal_info: 0 }),
            r.code == ErrorCode::spec_untranslatable(),
            r.internal_info == Some(0u32),
    {
        Self::new(&CBLError::default())
    }

    /// Decodes an engine error record, keeping its internal information.
    pub fn new(err: &CBLError) -> (r: Error)
        ensures
            r == Self::spec_new(*err),
    {
        Error { code: ErrorCode::new(err), internal_info: Some(err.internal_info) }
    }

    /// The error of the database engine's own domain with code `e`, without
    /// internal information.
    pub open spec fn spec_cbl_error(e: CouchbaseLiteError) -> Error {
        Error { code: ErrorCode::CouchbaseLite(e), internal_info: None }
    }

    /// An error of the database engine's own domain, without internal information.
    pub fn cbl_error(e: CouchbaseLiteError) -> (r: Error)
        ensures
            r == Self::spec_cbl_error(e),
    {
        Error { code: ErrorCode::CouchbaseLite(e), internal_info: None }
    }

    /// An error of the value encoding, from its number, without internal
    /// information.
    pub fn fleece_error(e: i32) -> (r: Error)
        ensures
            r == (Error { code: ErrorCode::spec_from_fleece(e), internal_info: None }),
    {
        Error { code: ErrorCode::from_fleece(e), internal_info: None }
    }

    /// Encodes this error as an engine error record. Missing internal
    /// information becomes 0.
    pub fn as_cbl_error(&self) -> (r: CBLError)
        ensures
            r == self.spec_as_cbl_error(),
            r.code != 0 ==> Self::spec_new(r).code == self.code,
    {
        proof {
            lemma_error_code_round_trip(self.code);
        }
        CBLError {
            domain: self.code.domain(),
            code: self.code.number(),
            internal_info: match self.internal_info {
                Some(info) => info,
                None => 0,
            },
        }
    }
}

/// Encoding a code and decoding the record gives the code back.
pub proof fn lemma_error_code_round_trip(code: ErrorCode)
    ensures
        ErrorCode::spec_new(
            CBLError { domain: code.spec_domain(), code: code.spec_number(), internal_info: 0 },
        ) == code,
        forall|info: u32|
            ErrorCode::spec_new(
                CBLError {
                    domain: code.spec_domain(),
                    code: code.spec_number(),
                    internal_info: info,
                },
            ) == code,
{
    match code {
        ErrorCode::CouchbaseLite(e) => {
            CouchbaseLiteError::lemma_from_code_round_trip(e);
        },
        ErrorCode::Fleece(e) => {
            FleeceError::lemma_from_code_round_trip(e);
        },
        ErrorCode::Network(e) => {
            NetworkError::lemma_from_code_round_trip(e);
        },
        _ => {},
    }
}

/// An error with internal information survives the way to the engine and back
/// unchanged.
pub proof fn lemma_error_round_trip(e: Error)
    requires
        e.internal_info is Some,
    ensures
        Error::spec_new(e.spec_as_cbl_error()) == e,
{
    lemma_error_code_round_trip(e.code);
}

/// Decoding never yields a typed code that the record does not carry: a record of
/// a pass-through domain keeps its number, and a typed code carries the record's
/// number unless it is the untranslatable one.
pub proof fn lemma_decode_is_faithful(err: CBLError)
    ensures
        ErrorCode::spec_new(err) != ErrorCode::spec_untranslatable() ==> {
            &&& ErrorCode::spec_new(err).spec_domain() == err.domain
            &&& ErrorCode::spec_new(err).spec_number() == err.code
        },
{
}

/// Turns an engine record that carries an error into `Err`.
pub fn failure<T>(err: CBLError) -> (r: Result<T, Error>)
    requires
        err.code != 0,
    ensures
        r matches Err(e) && e == Error::spec_new(err),
{
    Err(Error::new(&err))
}

/// `Ok` where the engine reported success; else the decoded error.
pub fn check_failure(status: bool, err: &CBLError) -> (r: Result<(), Error>)
    requires
        !status ==> err.code != 0,
    ensures
        status ==> r is Ok,
        !status ==> r == Err::<(), Error>(Error::spec_new(*err)),
{
    if status {
        return Ok(());
    }
    Err(Error::new(err))
}

/// `Ok` where the record is clear (domain 0 or code 0); else the decoded error.
pub fn check_error(err: &CBLError) -> (r: Result<(), Error>)
    ensures
        (err.domain == 0 || err.code == 0) ==> r is Ok,
        !(err.domain == 0 || err.code == 0) ==> r == Err::<(), Error>(Error::spec_new(*err)),
{
    if err.domain == 0 || err.code == 0 {
        Ok(())
    } else {
        Err(Error::new(err))
    }
}

impl ErrorCode {
    /// The words for a code of one of the typed domains; for a code of the
    /// other domains, the words that go before its number.
    pub open spec fn spec_words(&self) -> Seq<char> {
        match self {
            ErrorCode::CouchbaseLite(CouchbaseLiteError::AssertionFailed) => "Internal assertion failure"@,
            ErrorCode::CouchbaseLite(CouchbaseLiteError::Unimplemented) => "An API call that is not implemented"@,
            ErrorCode::CouchbaseLite(CouchbaseLiteError::UnsupportedEncryption) => "Unsupported encryption algorithm"@,
            ErrorCode::CouchbaseLite(CouchbaseLiteError::BadRevisionID) => "Invalid revision ID syntax"@,
            ErrorCode::CouchbaseLite(CouchbaseLiteError::CorruptRevisionData) => "Revision contains corrupted or unreadable data"@,
            ErrorCode::CouchbaseLite(CouchbaseLiteError::NotOpen) => "Database, key store or index is not open"@,
            ErrorCode::CouchbaseLite(CouchbaseLiteError::NotFound) => "Document not found"@,
            ErrorCode::CouchbaseLite(CouchbaseLiteError::Conflict) => "Document update conflict"@,
            ErrorCode::CouchbaseLite(CouchbaseLiteError::InvalidParameter) => "Invalid function parameter or struct value"@,
            ErrorCode::CouchbaseLite(CouchbaseLiteError::UnexpectedError) => "Internal unexpected failure"@,
            ErrorCode::CouchbaseLite(CouchbaseLiteError::CantOpenFile) => "Database file cannot be opened; it may not exist"@,
            ErrorCode::CouchbaseLite(CouchbaseLiteError::IOError) => "File I/O error"@,
            ErrorCode::CouchbaseLite(CouchbaseLiteError::MemoryError) => "Memory allocation failed"@,
            ErrorCode::CouchbaseLite(CouchbaseLiteError::NotWriteable) => "File is not writeable"@,
            ErrorCode::CouchbaseLite(CouchbaseLiteError::CorruptData) => "Data is corrupted"@,
            ErrorCode::CouchbaseLite(CouchbaseLiteError::Busy) => "Database is busy or locked"@,
            ErrorCode::CouchbaseLite(CouchbaseLiteError::NotInTransaction) => "Function must be called while in a transaction"@,
            ErrorCode::CouchbaseLite(CouchbaseLiteError::TransactionNotClosed) => "Database cannot be closed while a transaction is open"@,
            ErrorCode::CouchbaseLite(CouchbaseLiteError::Unsupported) => "Operation not supported in this database"@,
            ErrorCode::CouchbaseLite(CouchbaseLiteError::NotADatabaseFile) => "File is not a database, or the encryption key is wrong"@,
            ErrorCode::CouchbaseLite(CouchbaseLiteError::WrongFormat) => "Database exists but not in the format or storage requested"@,
            ErrorCode::CouchbaseLite(CouchbaseLiteError::Crypto) => "Encryption or decryption error"@,
            ErrorCode::CouchbaseLite(CouchbaseLiteError::InvalidQuery) => "Invalid query"@,
            ErrorCode::CouchbaseLite(CouchbaseLiteError::MissingIndex) => "No such index, or the query requires a nonexistent index"@,
            ErrorCode::CouchbaseLite(CouchbaseLiteError::InvalidQueryParam) => "Unknown query parameter name, or parameter number out of range"@,
            ErrorCode::CouchbaseLite(CouchbaseLiteError::RemoteError) => "Unknown error from the remote server"@,
            ErrorCode::CouchbaseLite(CouchbaseLiteError::DatabaseTooOld) => "Database file format is older than what can be opened"@,
            ErrorCode::CouchbaseLite(CouchbaseLiteError::DatabaseTooNew) => "Database file format is newer than what can be opened"@,
            ErrorCode::CouchbaseLite(CouchbaseLiteError::BadDocID) => "Invalid document ID"@,
            ErrorCode::CouchbaseLite(CouchbaseLiteError::CantUpgradeDatabase) => "Database cannot be upgraded"@,
            ErrorCode::CouchbaseLite(CouchbaseLiteError::UntranslatableError) => "Unknown error"@,
            ErrorCode::Fleece(FleeceError::MemoryError) => "Out of memory, or allocation failed"@,
            ErrorCode::Fleece(FleeceError::OutOfRange) => "Array index or iterator out of range"@,
            ErrorCode::Fleece(FleeceError::InvalidData) => "Bad input data (a non-string key and the like)"@,
            ErrorCode::Fleece(FleeceError::EncodeError) => "Structural error while encoding"@,
            ErrorCode::Fleece(FleeceError::JSONError) => "Error parsing JSON"@,
            ErrorCode::Fleece(FleeceError::UnknownValue) => "Unparseable data in a value"@,
            ErrorCode::Fleece(FleeceError::InternalError) => "Something that should not happen"@,
            ErrorCode::Fleece(FleeceError::NotFound) => "Key not found"@,
            ErrorCode::Fleece(FleeceError::SharedKeysStateError) => "Misuse of shared keys"@,
            ErrorCode::Fleece(FleeceError::POSIXError) => "Something went wrong at the OS level"@,
            ErrorCode::Fleece(FleeceError::Unsupported) => "Operation is unsupported"@,
            ErrorCode::Network(NetworkError::DNSFailure) => "DNS lookup failed"@,
            ErrorCode::Network(NetworkError::UnknownHost) => "DNS server does not know the host name"@,
            ErrorCode::Network(NetworkError::Timeout) => "No response received before the timeout"@,
            ErrorCode::Network(NetworkError::InvalidURL) => "Invalid URL"@,
            ErrorCode::Network(NetworkError::TooManyRedirects) => "HTTP redirect loop"@,
            ErrorCode::Network(NetworkError::TLSHandshakeFailed) => "Low-level error establishing TLS"@,
            ErrorCode::Network(NetworkError::TLSCertExpired) => "Server's TLS certificate has expired"@,
            ErrorCode::Network(NetworkError::TLSCertUntrusted) => "Certificate is not trusted for another reason"@,
            ErrorCode::Network(NetworkError::TLSClientCertRequired) => "Server requires the client to have a TLS certificate"@,
            ErrorCode::Network(NetworkError::TLSClientCertRejected) => "Server rejected the client's TLS certificate"@,
            ErrorCode::Network(NetworkError::TLSCertUnknownRoot) => "Self-signed certificate, or unknown anchor certificate"@,
            ErrorCode::Network(NetworkError::InvalidRedirect) => "Attempted redirect to an invalid URL"@,
            ErrorCode::Network(NetworkError::Unknown) => "Unknown networking error"@,
            ErrorCode::Network(NetworkError::TLSCertRevoked) => "Server's certificate has been revoked"@,
            ErrorCode::Network(NetworkError::TLSCertNameMismatch) => "Server certificate's name does not match the DNS name"@,
            ErrorCode::POSIX(_) => "POSIX error "@,
            ErrorCode::SQLite(_) => "SQLite error "@,
            ErrorCode::WebSocket(_) => "WebSocket status "@,
        }
    }

    fn words(&self) -> (r: &'static str)
        ensures
            r@ == self.spec_words(),
    {
        match self {
            ErrorCode::CouchbaseLite(CouchbaseLiteError::AssertionFailed) => "Internal assertion failure",
            ErrorCode::CouchbaseLite(CouchbaseLiteError::Unimplemented) => "An API call that is not implemented",
            ErrorCode::CouchbaseLite(CouchbaseLiteError::UnsupportedEncryption) => "Unsupported encryption algorithm",
            ErrorCode::CouchbaseLite(CouchbaseLiteError::BadRevisionID) => "Invalid revision ID syntax",
            ErrorCode::CouchbaseLite(CouchbaseLiteError::CorruptRevisionData) => "Revision contains corrupted or unreadable data",
            ErrorCode::CouchbaseLite(CouchbaseLiteError::NotOpen) => "Database, key store or index is not open",
            ErrorCode::CouchbaseLite(CouchbaseLiteError::NotFound) => "Document not found",
            ErrorCode::CouchbaseLite(CouchbaseLiteError::Conflict) => "Document update conflict",
            ErrorCode::CouchbaseLite(CouchbaseLiteError::InvalidParameter) => "Invalid function parameter or struct value",
            ErrorCode::CouchbaseLite(CouchbaseLiteError::UnexpectedError) => "Internal unexpected failure",
            ErrorCode::CouchbaseLite(CouchbaseLiteError::CantOpenFile) => "Database file cannot be opened; it may not exist",
            ErrorCode::CouchbaseLite(CouchbaseLiteError::IOError) => "File I/O error",
            ErrorCode::CouchbaseLite(CouchbaseLiteError::MemoryError) => "Memory allocation failed",
            ErrorCode::CouchbaseLite(CouchbaseLiteError::NotWriteable) => "File is not writeable",
            ErrorCode::CouchbaseLite(CouchbaseLiteError::CorruptData) => "Data is corrupted",
            ErrorCode::CouchbaseLite(CouchbaseLiteError::Busy) => "Database is busy or locked",
            ErrorCode::CouchbaseLite(CouchbaseLiteError::NotInTransaction) => "Function must be called while in a transaction",
            ErrorCode::CouchbaseLite(CouchbaseLiteError::TransactionNotClosed) => "Database cannot be closed while a transaction is open",
            ErrorCode::CouchbaseLite(CouchbaseLiteError::Unsupported) => "Operation not supported in this database",
            ErrorCode::CouchbaseLite(CouchbaseLiteError::NotADatabaseFile) => "File is not a database, or the encryption key is wrong",
            ErrorCode::CouchbaseLite(CouchbaseLiteError::WrongFormat) => "Database exists but not in the format or storage requested",
            ErrorCode::CouchbaseLite(CouchbaseLiteError::Crypto) => "Encryption or decryption error",
            ErrorCode::CouchbaseLite(CouchbaseLiteError::InvalidQuery) => "Invalid query",
            ErrorCode::CouchbaseLite(CouchbaseLiteError::MissingIndex) => "No such index, or the query requires a nonexistent index",
            ErrorCode::CouchbaseLite(CouchbaseLiteError::InvalidQueryParam) => "Unknown query parameter name, or parameter number out of range",
            ErrorCode::CouchbaseLite(CouchbaseLiteError::RemoteError) => "Unknown error from the remote server",
            ErrorCode::CouchbaseLite(CouchbaseLiteError::DatabaseTooOld) => "Database file format is older than what can be opened",
            ErrorCode::CouchbaseLite(CouchbaseLiteError::DatabaseTooNew) => "Database file format is newer than what can be opened",
            ErrorCode::CouchbaseLite(CouchbaseLiteError::BadDocID) => "Invalid document ID",
            ErrorCode::CouchbaseLite(CouchbaseLiteError::CantUpgradeDatabase) => "Database cannot be upgraded",
            ErrorCode::CouchbaseLite(CouchbaseLiteError::UntranslatableError) => "Unknown error",
            ErrorCode::Fleece(FleeceError::MemoryError) => "Out of memory, or allocation failed",
            ErrorCode::Fleece(FleeceError::OutOfRange) => "Array index or iterator out of range",
            ErrorCode::Fleece(FleeceError::InvalidData) => "Bad input data (a non-string key and the like)",
            ErrorCode::Fleece(FleeceError::EncodeError) => "Structural error while encoding",
            ErrorCode::Fleece(FleeceError::JSONError) => "Error parsing JSON",
            ErrorCode::Fleece(FleeceError::UnknownValue) => "Unparseable data in a value",
            ErrorCode::Fleece(FleeceError::InternalError) => "Something that should not happen",
            ErrorCode::Fleece(FleeceError::NotFound) => "Key not found",
            ErrorCode::Fleece(FleeceError::SharedKeysStateError) => "Misuse of shared keys",
            ErrorCode::Fleece(FleeceError::POSIXError) => "Something went wrong at the OS level",
            ErrorCode::Fleece(FleeceError::Unsupported) => "Operation is unsupported",
            ErrorCode::Network(NetworkError::DNSFailure) => "DNS lookup failed",
            ErrorCode::Network(NetworkError::UnknownHost) => "DNS server does not know the host name",
            ErrorCode::Network(NetworkError::Timeout) => "No response received before the timeout",
            ErrorCode::Network(NetworkError::InvalidURL) => "Invalid URL",
            ErrorCode::Network(NetworkError::TooManyRedirects) => "HTTP redirect loop",
            ErrorCode::Network(NetworkError::TLSHandshakeFailed) => "Low-level error establishing TLS",
            ErrorCode::Network(NetworkError::TLSCertExpired) => "Server's TLS certificate has expired",
            ErrorCode::Network(NetworkError::TLSCertUntrusted) => "Certificate is not trusted for another reason",
            ErrorCode::Network(NetworkError::TLSClientCertRequired) => "Server requires the client to have a TLS certificate",
            ErrorCode::Network(NetworkError::TLSClientCertRejected) => "Server rejected the client's TLS certificate",
            ErrorCode::Network(NetworkError::TLSCertUnknownRoot) => "Self-signed certificate, or unknown anchor certificate",
            ErrorCode::Network(NetworkError::InvalidRedirect) => "Attempted redirect to an invalid URL",
            ErrorCode::Network(NetworkError::Unknown) => "Unknown networking error",
            ErrorCode::Network(NetworkError::TLSCertRevoked) => "Server's certificate has been revoked",
            ErrorCode::Network(NetworkError::TLSCertNameMismatch) => "Server certificate's name does not match the DNS name",
            ErrorCode::POSIX(_) => "POSIX error ",
            ErrorCode::SQLite(_) => "SQLite error ",
            ErrorCode::WebSocket(_) => "WebSocket status ",
        }
    }
}

/// The raw number of a code of the pass-through domains, as it is written in a
/// message: in decimal, with a minus sign where it is negative.
pub open spec fn spec_number_text(n: i32) -> Seq<char> {
    if n < 0 {
        seq!['-'] + decimal_text((-(n as int)) as nat)
    } else {
        decimal_text(n as nat)
    }
}

impl Error {
    /// The message of the error: the words for its code, and for a code of the
    /// pass-through domains its number behind them.
    pub open spec fn spec_message(&self) -> Seq<char> {
        match self.code {
            ErrorCode::POSIX(n) => self.code.spec_words() + spec_number_text(n),
            ErrorCode::SQLite(n) => self.code.spec_words() + spec_number_text(n),
            ErrorCode::WebSocket(n) => self.code.spec_words() + spec_number_text(n),
            _ => self.code.spec_words(),
        }
    }

    /// The message of the error. It is made from the code when it is asked
    /// for; an error does not carry it.
    pub fn message(&self) -> (r: String)
        ensures
            r@ == self.spec_message(),
    {
        let mut out = String::new();
        out.append(self.code.words());
        assert(out@ =~= self.code.spec_words());
        let raw = match self.code {
            ErrorCode::POSIX(n) => Some(n),
            ErrorCode::SQLite(n) => Some(n),
            ErrorCode::WebSocket(n) => Some(n),
            _ => None,
        };
        match raw {
            Some(n) => {
                if n < 0 {
                    out.push('-');
                    let magnitude: u64 = ((-(n as i64)) as u64);
                    push_decimal(&mut out, magnitude);
                } else {
                    push_decimal(&mut out, n as u64);
                }
                assert(out@ =~= self.code.spec_words() + spec_number_text(n));
            },
            None => {},
        }
        out
    }
}

/// Calls `func` with an empty error record, and turns what it leaves into a
/// `Result`: `Ok` where `func` reports success, else the error that its record
/// decodes to.
pub fn check_bool<F: FnOnce(&mut CBLError) -> bool>(func: F) -> (r: Result<(), Error>)
    requires
        forall|e: &mut CBLError| *e == (CBLError { domain: 0, code: 0, internal_info: 0 })
            ==> call_requires(func, (e,)),
        forall|e: &mut CBLError, ok: bool|
            call_ensures(func, (e,), ok) && !ok ==> final(e).code != 0,
    ensures
        exists|e: &mut CBLError, ok: bool|
            {
                &&& *e == (CBLError { domain: 0, code: 0, internal_info: 0 })
                &&& #[trigger] call_ensures(func, (e,), ok)
                &&& ok ==> r is Ok
                &&& !ok ==> r == Err::<(), Error>(Error::spec_new(*final(e)))
            },
{
    let mut error = CBLError::default();
    let ok = func(&mut error);
    check_failure(ok, &error)
}

/// Calls `func` with an empty error record. Where it returns something, `map`
/// makes the result of it; where it returns nothing, the result is the error
/// that its record decodes to.
pub fn check_ptr<P, F: FnOnce(&mut CBLError) -> Option<P>, M: FnOnce(P) -> R, R>(
    func: F,
    map: M,
) -> (r: Result<R, Error>)
    requires
        forall|e: &mut CBLError| *e == (CBLError { domain: 0, code: 0, internal_info: 0 })
            ==> call_requires(func, (e,)),
        forall|e: &mut CBLError, got: Option<P>|
            call_ensures(func, (e,), got) && got is None ==> final(e).code != 0,
        forall|p: P| call_requires(map, (p,)),
    ensures
        exists|e: &mut CBLError, got: Option<P>|
            {
                &&& *e == (CBLError { domain: 0, code: 0, internal_info: 0 })
                &&& #[trigger] call_ensures(func, (e,), got)
                &&& got matches Some(p) ==> (r matches Ok(out) && call_ensures(map, (p,), out))
                &&& got is None ==> (r matches Err(err) && err == Error::spec_new(*final(e)))
            },
{
    let mut error = CBLError::default();
    match func(&mut error) {
        Some(p) => Ok(map(p)),
        None => failure(error),
    }
}

/// Calls `func` with an empty error record. A count that is not negative is
/// the result; a negative one stands for a failure, and the result is the
/// error that the record decodes to.
pub fn check_io<F: FnOnce(&mut CBLError) -> i32>(func: F) -> (r: Result<usize, Error>)
    requires
        forall|e: &mut CBLError| *e == (CBLError { domain: 0, code: 0, internal_info: 0 })
            ==> call_requires(func, (e,)),
    ensures
        exists|e: &mut CBLError, n: i32|
            {
                &&& *e == (CBLError { domain: 0, code: 0, internal_info: 0 })
                &&& #[trigger] call_ensures(func, (e,), n)
                &&& n >= 0 ==> r == Ok::<usize, Error>(n as usize)
                &&& n < 0 ==> r == Err::<usize, Error>(Error::spec_new(*final(e)))
            },
{
    let mut error = CBLError::default();
    let n = func(&mut error);
    if n < 0 {
        Err(Error::new(&error))
    } else {
        Ok(n as usize)
    }
}

} // verus!
