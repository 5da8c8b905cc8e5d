//! An embedded document database: a dynamic value model, documents, an
//! in-memory document store, and the lifecycle of a replicator.

pub mod base64;
pub mod database;
pub mod document;
pub mod encryptable;
pub mod encryption;
pub mod error;
pub mod fleece;
pub mod fleece_mutable;
pub mod index;
pub mod json;
pub mod json_round_trip;
pub mod logging;
pub mod number;
pub mod query;
pub mod replicator;
pub mod text;
pub mod transfer;

pub use crate::database::{Change, Database, DatabaseConfiguration, EncryptionKey};
pub use crate::document::{ConcurrencyControl, Document};
pub use crate::encryptable::Encryptable;
pub use crate::error::{
    CBLError, CouchbaseLiteError, Error, ErrorCode, FleeceError, NetworkError,
};
pub use crate::fleece::{
    Array, ArrayIterator, Dict, DictIterator, DictKey, FleeceReference, Trust, Value, ValueType,
};
pub use crate::fleece_mutable::{CopyFlags, MutableArray, MutableDict, Slot};
pub use crate::index::{QueryLanguage, ValueIndexConfiguration};
pub use crate::json::Fleece;
pub use crate::query::{Query, ResultSet, Row};
pub use crate::replicator::{
    Authenticator, Direction, Endpoint, ProxySettings, ProxyType, ReplicatedDocument,
    ReplicationConfigurationContext, Replicator, ReplicatorActivityLevel, ReplicatorConfiguration,
    ReplicatorStatus, ReplicatorType,
};

use vstd::prelude::*;

verus! {

/// A time value for document expiration: milliseconds since the Unix epoch.
#[derive(Debug, Clone, Copy)]
pub struct Timestamp(pub i64);

/// A token that stands for a registered listener. While the owner of the
/// listener keeps the token, the listener is called.
#[derive(Debug, PartialEq, Eq)]
pub struct ListenerToken {
    pub(crate) id: u64,
}

impl ListenerToken {
    /// The token with the number `id`.
    pub fn new(id: u64) -> (r: ListenerToken)
        ensures
            r.spec_id() == id,
    {
        ListenerToken { id }
    }

    /// The number of the token.
    pub closed spec fn spec_id(&self) -> u64 {
        self.id
    }

    /// The number of the token.
    pub fn id(&self) -> (r: u64)
        ensures
            r == self.spec_id(),
    {
        self.id
    }
}

/// A listener together with the token under which it is registered.
pub struct Listener<T> {
    pub listener_token: ListenerToken,
    pub listener: T,
}

impl<T> Listener<T> {
    /// Puts a listener and its token together.
    pub fn new(listener_token: ListenerToken, listener: T) -> (r: Self)
        ensures
            r.listener_token == listener_token,
            r.listener == listener,
    {
        Self { listener_token, listener }
    }
}

} // verus!
