//! Encrypting properties on their way out and decrypting them on their way in:
//! what becomes of the properties of a document, given what the callbacks made
//! of each value.

use crate::base64::{base64_bytes, decode_base64};
use crate::encryptable::{model_is_encryptable, value_key, wrapping_entries, Encryptable};
use crate::error::{CBLError, CouchbaseLiteError, Error};
use crate::fleece::{
    entries_get, entries_put, entries_remove, lemma_put_wf, lemma_remove_wf, model_entries,
    model_wf, Dict, Entries, ValueModel,
};
use crate::fleece_mutable::MutableDict;
use crate::json::{base64_text, encode_base64, json_text, parse, parse_json};
use crate::text::{chars_of, has_prefix, string_from, utf8_bytes, utf8_text};
use vstd::prelude::*;
use vstd::utf8::{decode_utf8, encode_utf8, valid_utf8};

verus! {

/// Why a property could not be encrypted or decrypted.
#[derive(Debug, Clone, Copy, PartialEq, Eq, Structural)]
pub enum EncryptionError {
    /// The failure may pass: the same bytes may well succeed later.
    Temporary,
    /// The failure stays: the same bytes will fail again.
    Permanent,
}

/// The characters `encrypted$`, which begin the key of an encrypted property.
pub open spec fn encrypted_prefix() -> Seq<char> {
    seq!['e', 'n', 'c', 'r', 'y', 'p', 't', 'e', 'd', '$']
}

/// The key `alg`, under which an encrypted property holds its algorithm.
pub open spec fn alg_key() -> Seq<char> {
    seq!['a', 'l', 'g']
}

/// The key `ciphertext`, under which an encrypted property holds its bytes in
/// base 64.
pub open spec fn ciphertext_key() -> Seq<char> {
    seq!['c', 'i', 'p', 'h', 'e', 'r', 't', 'e', 'x', 't']
}

/// The key `kid`, under which an encrypted property holds the name of its key.
pub open spec fn kid_key() -> Seq<char> {
    seq!['k', 'i', 'd']
}

/// The key under which the property `key` stands once it is encrypted.
pub open spec fn encrypted_name(key: Seq<char>) -> Seq<char> {
    encrypted_prefix() + key
}

/// What an encrypted property holds: the algorithm, the bytes in base 64, and
/// the name of the key where there is one.
pub open spec fn cipher_entries(
    cipher: Seq<u8>,
    algorithm: Seq<char>,
    kid: Option<Seq<char>>,
) -> Entries {
    let base = entries_put(
        entries_put(Seq::empty(), alg_key(), ValueModel::String(algorithm)),
        ciphertext_key(),
        ValueModel::String(base64_text(cipher)),
    );
    match kid {
        Some(k) => entries_put(base, kid_key(), ValueModel::String(k)),
        None => base,
    }
}

/// The properties with the property `key` encrypted: it is gone, and under
/// `encrypted$` and the key stands what `cipher_entries` says.
pub open spec fn with_ciphertext(
    properties: Entries,
    key: Seq<char>,
    cipher: Seq<u8>,
    algorithm: Seq<char>,
    kid: Option<Seq<char>>,
) -> Entries {
    entries_put(
        entries_remove(properties, key),
        encrypted_name(key),
        ValueModel::Dict(cipher_entries(cipher, algorithm, kid)),
    )
}

/// The value that the property `key` wraps for encryption.
pub open spec fn wrapped_value(properties: Entries, key: Seq<char>) -> ValueModel {
    entries_get(model_entries(entries_get(properties, key)), value_key())
}

/// The bytes that are handed to the encryptor for the property `key`: the JSON
/// text of the wrapped value, in UTF-8.
pub open spec fn plaintext_of(properties: Entries, key: Seq<char>) -> Seq<u8> {
    encode_utf8(json_text(wrapped_value(properties, key)))
}

/// The bytes that the encrypted property `name` holds; `None` where it holds no
/// text in base 64 under `ciphertext`.
pub open spec fn ciphertext_of(properties: Entries, name: Seq<char>) -> Option<Seq<u8>> {
    match entries_get(model_entries(entries_get(properties, name)), ciphertext_key()) {
        ValueModel::String(text) => base64_bytes(text),
        _ => None,
    }
}

/// The value that decrypted bytes stand for: that of their JSON text; `None`
/// for bytes that are no UTF-8, or whose text is no JSON.
pub open spec fn plain_value(plain: Seq<u8>) -> Option<ValueModel> {
    if valid_utf8(plain) {
        parse_json(decode_utf8(plain))
    } else {
        None
    }
}

/// The properties with the encrypted property `name` decrypted to `value`: it
/// is gone, and under the key without `encrypted$` stands the value, wrapped
/// for encryption.
pub open spec fn with_plaintext(properties: Entries, name: Seq<char>, value: ValueModel) -> Entries {
    entries_put(
        entries_remove(properties, name),
        name.skip(10),
        ValueModel::Dict(wrapping_entries(value)),
    )
}

/// True for an encrypted property: its key begins with `encrypted$`, and it
/// holds a string under `ciphertext`.
pub open spec fn is_encrypted_entry(entry: (Seq<char>, ValueModel)) -> bool {
    &&& entry.0.len() >= 10
    &&& entry.0.subrange(0, 10) == encrypted_prefix()
    &&& entries_get(model_entries(entry.1), ciphertext_key()) is String
}

/// The keys of the properties that are wrapped for encryption, in their order.
pub open spec fn encryptable_keys(properties: Entries) -> Seq<Seq<char>>
    decreases properties.len(),
{
    if properties.len() == 0 {
        Seq::empty()
    } else if model_is_encryptable(properties.last().1) {
        encryptable_keys(properties.drop_last()).push(properties.last().0)
    } else {
        encryptable_keys(properties.drop_last())
    }
}

/// The keys of the properties that are encrypted, in their order.
pub open spec fn encrypted_names(properties: Entries) -> Seq<Seq<char>>
    decreases properties.len(),
{
    if properties.len() == 0 {
        Seq::empty()
    } else if is_encrypted_entry(properties.last()) {
        encrypted_names(properties.drop_last()).push(properties.last().0)
    } else {
        encrypted_names(properties.drop_last())
    }
}

/// The keys of the properties that are wrapped for encryption, in their order.
pub fn list_encryptable(properties: &MutableDict) -> (keys: Vec<String>)
    requires
        properties.wf(),
    ensures
        crate::database::texts(keys@) == encryptable_keys(properties.spec_entries()),
{
    let mut keys: Vec<String> = Vec::new();
    let mut it = properties.iter();
    let ghost all = properties.spec_entries();
    proof {
        properties.lemma_view_is_dict();
        assert(all.subrange(0, 0) =~= Seq::empty());
        assert(crate::database::texts(keys@) =~= Seq::empty());
    }
    loop
        invariant
            it.entries() == all,
            it.position() <= all.len(),
            model_wf(ValueModel::Dict(all)),
            crate::database::texts(keys@) == encryptable_keys(
                all.subrange(0, it.position() as int),
            ),
        ensures
            it.position() == all.len(),
        decreases all.len() - it.position(),
    {
        let ghost pos = it.position() as int;
        proof {
            it.lemma_bounds();
            let next = all.subrange(0, pos + 1);
            if pos < all.len() {
                assert(next.drop_last() =~= all.subrange(0, pos));
                assert(next.last() == all[pos]);
            }
        }
        match it.next() {
            Some((key, value)) => {
                assert(value@ == all[pos].1);
                assert(model_wf(all[pos].1));
                if value.is_encryptable() {
                    let ghost before = crate::database::texts(keys@);
                    keys.push(key);
                    assert(crate::database::texts(keys@) =~= before.push(all[pos].0));
                }
            },
            None => {
                break ;
            },
        }
    }
    assert(all.subrange(0, all.len() as int) =~= all);
    keys
}

/// The bytes that are handed to the encryptor for the property `key`.
pub fn plaintext(properties: &MutableDict, key: &str) -> (r: Vec<u8>)
    requires
        properties.wf(),
    ensures
        r@ == plaintext_of(properties.spec_entries(), key@),
{
    proof {
        properties.lemma_view_is_dict();
        reveal_strlit("value");
        assert("value"@ =~= value_key());
    }
    let wrapping = properties.get(key);
    let dict = wrapping.as_dict();
    let value = if dict.is_null() {
        proof {
            let none: Entries = Seq::empty();
            assert(crate::fleece::is_rank(none, value_key(), 0));
            crate::fleece::lemma_rank_unique(none, value_key(), 0);
        }
        crate::fleece::Value::undefined()
    } else {
        proof {
            crate::fleece::lemma_get_wf(properties.spec_entries(), key@);
        }
        dict.get("value")
    };
    let text = value.to_json();
    utf8_bytes(text.as_str())
}


/// The error of a property that could not be encrypted or decrypted.
pub open spec fn spec_crypto_error() -> Error {
    Error::spec_cbl_error(CouchbaseLiteError::Crypto)
}

/// What an encrypted property holds, as a dictionary.
fn cipher_dict(cipher: &Vec<u8>, algorithm: &str, kid: Option<&str>) -> (r: MutableDict)
    ensures
        r@ == ValueModel::Dict(
            cipher_entries(
                cipher@,
                algorithm@,
                match kid {
                    Some(k) => Some(k@),
                    None => None,
                },
            ),
        ),
        r.wf(),
{
    let mut inner = MutableDict::new();
    proof {
        inner.lemma_view_is_dict();
        reveal_strlit("alg");
        reveal_strlit("ciphertext");
        reveal_strlit("kid");
        assert("alg"@ =~= alg_key());
        assert("ciphertext"@ =~= ciphertext_key());
        assert("kid"@ =~= kid_key());
    }
    inner.at("alg").put_string(algorithm);
    proof {
        inner.lemma_view_is_dict();
    }
    let text = encode_base64(cipher);
    inner.at("ciphertext").put_string(text.as_str());
    proof {
        inner.lemma_view_is_dict();
    }
    match kid {
        Some(k) => {
            inner.at("kid").put_string(k);
            proof {
                inner.lemma_view_is_dict();
            }
        },
        None => {},
    }
    inner
}

/// Puts the encrypted bytes in the place of the property `key`; see
/// `with_ciphertext`.
pub fn put_ciphertext(
    properties: &mut MutableDict,
    key: &str,
    cipher: &Vec<u8>,
    algorithm: &str,
    kid: Option<&str>,
)
    requires
        old(properties).wf(),
    ensures
        final(properties).wf(),
        final(properties)@ == ValueModel::Dict(
            with_ciphertext(
                old(properties).spec_entries(),
                key@,
                cipher@,
                algorithm@,
                match kid {
                    Some(k) => Some(k@),
                    None => None,
                },
            ),
        ),
{
    proof {
        properties.lemma_view_is_dict();
        reveal_strlit("encrypted$");
        assert("encrypted$"@ =~= encrypted_prefix());
    }
    let inner = cipher_dict(cipher, algorithm, kid);
    properties.remove(key);
    proof {
        properties.lemma_view_is_dict();
        inner.lemma_view_is_dict();
    }
    let mut name = String::from_str("encrypted$");
    name.append(key);
    properties.at(name.as_str()).put_value(&inner);
    proof {
        properties.lemma_view_is_dict();
    }
}

/// The keys of the properties that are encrypted, in their order.
pub fn list_encrypted(properties: &MutableDict) -> (names: Vec<String>)
    requires
        properties.wf(),
    ensures
        crate::database::texts(names@) == encrypted_names(properties.spec_entries()),
{
    let mut names: Vec<String> = Vec::new();
    let mut it = properties.iter();
    let ghost all = properties.spec_entries();
    let prefix = chars_of("encrypted$");
    proof {
        properties.lemma_view_is_dict();
        reveal_strlit("encrypted$");
        reveal_strlit("ciphertext");
        assert("encrypted$"@ =~= encrypted_prefix());
        assert("ciphertext"@ =~= ciphertext_key());
        assert(all.subrange(0, 0) =~= Seq::empty());
        assert(crate::database::texts(names@) =~= Seq::empty());
    }
    loop
        invariant
            it.entries() == all,
            it.position() <= all.len(),
            model_wf(ValueModel::Dict(all)),
            prefix@ == encrypted_prefix(),
            "ciphertext"@ == ciphertext_key(),
            crate::database::texts(names@) == encrypted_names(
                all.subrange(0, it.position() as int),
            ),
        ensures
            it.position() == all.len(),
        decreases all.len() - it.position(),
    {
        let ghost pos = it.position() as int;
        proof {
            it.lemma_bounds();
            let next = all.subrange(0, pos + 1);
            if pos < all.len() {
                assert(next.drop_last() =~= all.subrange(0, pos));
                assert(next.last() == all[pos]);
            }
        }
        match it.next() {
            Some((key, value)) => {
                assert(value@ == all[pos].1);
                assert(model_wf(all[pos].1));
                let chars = chars_of(key.as_str());
                let dict = value.as_dict();
                let holds = if dict.is_null() {
                    proof {
                        let none: Entries = Seq::empty();
                        assert(crate::fleece::is_rank(none, ciphertext_key(), 0));
                        crate::fleece::lemma_rank_unique(none, ciphertext_key(), 0);
                    }
                    false
                } else {
                    dict.get("ciphertext").as_string().is_some()
                };
                if has_prefix(&chars, &prefix) && holds {
                    let ghost before = crate::database::texts(names@);
                    names.push(key);
                    assert(crate::database::texts(names@) =~= before.push(all[pos].0));
                }
            },
            None => {
                break ;
            },
        }
    }
    assert(all.subrange(0, all.len() as int) =~= all);
    names
}

/// The bytes that the encrypted property `name` holds; see `ciphertext_of`.
pub fn ciphertext(properties: &MutableDict, name: &str) -> (r: Option<Vec<u8>>)
    requires
        properties.wf(),
    ensures
        (match r {
            Some(v) => Some(v@),
            None => None,
        }) == ciphertext_of(properties.spec_entries(), name@),
{
    proof {
        properties.lemma_view_is_dict();
        reveal_strlit("ciphertext");
        assert("ciphertext"@ =~= ciphertext_key());
        crate::fleece::lemma_get_wf(properties.spec_entries(), name@);
    }
    let dict = properties.get(name).as_dict();
    if dict.is_null() {
        proof {
            let none: Entries = Seq::empty();
            assert(crate::fleece::is_rank(none, ciphertext_key(), 0));
            crate::fleece::lemma_rank_unique(none, ciphertext_key(), 0);
        }
        return None;
    }
    match dict.get("ciphertext").as_string() {
        Some(text) => decode_base64(text),
        None => None,
    }
}

/// Puts the decrypted value in the place of the encrypted property `name`; see
/// `with_plaintext`. Fails with `Crypto`, and changes nothing, where the bytes
/// are not the JSON text of a value, or the key does not begin with
/// `encrypted$`.
pub fn put_plaintext(properties: &mut MutableDict, name: &str, plain: &[u8]) -> (r: Result<
    (),
    Error,
>)
    requires
        old(properties).wf(),
    ensures
        final(properties).wf(),
        (name@.len() >= 10 && name@.subrange(0, 10) == encrypted_prefix() && plain_value(
            plain@,
        ) is Some) ==> r is Ok && final(properties)@ == ValueModel::Dict(
            with_plaintext(old(properties).spec_entries(), name@, plain_value(plain@)->0),
        ),
        !(name@.len() >= 10 && name@.subrange(0, 10) == encrypted_prefix() && plain_value(
            plain@,
        ) is Some) ==> r == Err::<(), Error>(spec_crypto_error()) && *final(properties) == *old(properties),
{
    proof {
        properties.lemma_view_is_dict();
        reveal_strlit("encrypted$");
        assert("encrypted$"@ =~= encrypted_prefix());
    }
    let chars = chars_of(name);
    let prefix = chars_of("encrypted$");
    if !has_prefix(&chars, &prefix) {
        return Err(Error::cbl_error(CouchbaseLiteError::Crypto));
    }
    let text = match utf8_text(plain) {
        Some(text) => text,
        None => {
            return Err(Error::cbl_error(CouchbaseLiteError::Crypto));
        },
    };
    let node = match parse(text) {
        Ok(node) => node,
        Err(_) => {
            return Err(Error::cbl_error(CouchbaseLiteError::Crypto));
        },
    };
    let wrapped = Encryptable::create_with_value(crate::fleece::Value::wrap(&node, &node));
    let key = string_from(&chars, 10);
    properties.remove(name);
    proof {
        properties.lemma_view_is_dict();
        crate::fleece::lemma_container_view(node);
    }
    properties.at(key.as_str()).put_encrypt(&wrapped);
    proof {
        properties.lemma_view_is_dict();
    }
    Ok(())
}


/// The name of the algorithm that is written for a property that a callback
/// has encrypted: `CB_MOBILE_CUSTOM`.
pub open spec fn custom_algorithm() -> Seq<char> {
    seq!['C', 'B', '_', 'M', 'O', 'B', 'I', 'L', 'E', '_', 'C', 'U', 'S', 'T', 'O', 'M']
}

/// What the callbacks return: the bytes, or why there are none.
pub type Outcome = Result<Vec<u8>, EncryptionError>;

/// True when `outcome` is what the callback `f` returns for a property: it is
/// called with the document's id, the properties, the key, the bytes `input`,
/// the algorithm `CB_MOBILE_CUSTOM`, no key name, and the error of the empty
/// record.
pub open spec fn callback_gives<
    F: Fn(
        Option<String>,
        Dict,
        Option<String>,
        Vec<u8>,
        Option<String>,
        Option<String>,
        &Error,
    ) -> Result<Vec<u8>, EncryptionError>,
>(
    f: F,
    document_id: Seq<char>,
    properties: Entries,
    key: Seq<char>,
    input: Seq<u8>,
    outcome: Outcome,
) -> bool {
    exists|
        id: Option<String>,
        all: Dict,
        k: Option<String>,
        bytes: Vec<u8>,
        algorithm: Option<String>,
        kid: Option<String>,
        error: &Error,
    |
        {
            &&& id matches Some(s) && s@ == document_id
            &&& all@ == ValueModel::Dict(properties)
            &&& k matches Some(s) && s@ == key
            &&& bytes@ == input
            &&& algorithm matches Some(s) && s@ == custom_algorithm()
            &&& kid is None
            &&& *error == Error::spec_new(CBLError { domain: 0, code: 0, internal_info: 0 })
            &&& #[trigger] call_ensures(f, (id, all, k, bytes, algorithm, kid, error), outcome)
        }
}

/// What comes of encrypting the properties wrapped under `keys`, one after the
/// other, given what the encryptor returned for each that it was asked about:
/// the properties with each of them encrypted, or the first failure.
pub open spec fn sealed(properties: Entries, keys: Seq<Seq<char>>, outcomes: Seq<Outcome>) -> Result<
    Entries,
    EncryptionError,
>
    decreases outcomes.len(),
{
    if outcomes.len() == 0 {
        Ok(properties)
    } else {
        match sealed(properties, keys, outcomes.drop_last()) {
            Err(e) => Err(e),
            Ok(so_far) => match outcomes.last() {
                Err(e) => Err(e),
                Ok(cipher) => Ok(
                    with_ciphertext(
                        so_far,
                        keys[outcomes.len() - 1],
                        cipher@,
                        custom_algorithm(),
                        None,
                    ),
                ),
            },
        }
    }
}

/// What became of one encrypted property on its way in: its bytes could not be
/// read, or the decryptor was asked and returned an outcome.
pub ghost enum Opening {
    Unreadable,
    Asked(Outcome),
}

/// What comes of decrypting the properties `names`, one after the other, given
/// what became of each that was looked at: the properties with each of them
/// decrypted, or the first failure. Bytes that cannot be read in base 64, and
/// decrypted bytes that are not the JSON text of a value, are a permanent
/// failure.
pub open spec fn opened(properties: Entries, names: Seq<Seq<char>>, openings: Seq<Opening>) -> Result<
    Entries,
    EncryptionError,
>
    decreases openings.len(),
{
    if openings.len() == 0 {
        Ok(properties)
    } else {
        match opened(properties, names, openings.drop_last()) {
            Err(e) => Err(e),
            Ok(so_far) => match openings.last() {
                Opening::Unreadable => Err(EncryptionError::Permanent),
                Opening::Asked(Err(e)) => Err(e),
                Opening::Asked(Ok(plain)) => match plain_value(plain@) {
                    None => Err(EncryptionError::Permanent),
                    Some(value) => Ok(with_plaintext(so_far, names[openings.len() - 1], value)),
                },
            },
        }
    }
}

/// The entries of the properties that a transformation returns, or its failure.
pub open spec fn result_entries(r: Result<MutableDict, EncryptionError>) -> Result<
    Entries,
    EncryptionError,
> {
    match r {
        Ok(d) => Ok(d.spec_entries()),
        Err(e) => Err(e),
    }
}

/// True when `result` is what comes of encrypting `properties` with
/// `encryptor`. Properties without a wrapped value stay as they are. With a
/// wrapped value and no encryptor the result is a permanent failure. Else the
/// encryptor is asked about the wrapped values in the order of their keys, up
/// to its first failure, and the result is what `sealed` makes of its answers.
pub open spec fn encryption_gives<
    EN: Fn(
        Option<String>,
        Dict,
        Option<String>,
        Vec<u8>,
        Option<String>,
        Option<String>,
        &Error,
    ) -> Result<Vec<u8>, EncryptionError>,
>(
    encryptor: Option<EN>,
    document_id: Seq<char>,
    properties: Entries,
    result: Result<Entries, EncryptionError>,
) -> bool {
    if encryptable_keys(properties).len() == 0 {
        result == Ok::<Entries, EncryptionError>(properties)
    } else {
        match encryptor {
            None => result == Err::<Entries, EncryptionError>(EncryptionError::Permanent),
            Some(f) => encryptor_gives(f, document_id, properties, result),
        }
    }
}

/// True when `result` is what comes of asking the encryptor `f` about the
/// wrapped values of `properties`.
pub open spec fn encryptor_gives<
    EN: Fn(
        Option<String>,
        Dict,
        Option<String>,
        Vec<u8>,
        Option<String>,
        Option<String>,
        &Error,
    ) -> Result<Vec<u8>, EncryptionError>,
>(f: EN, document_id: Seq<char>, properties: Entries, result: Result<Entries, EncryptionError>) -> bool {
    exists|outcomes: Seq<Outcome>|
        #![trigger sealed(properties, encryptable_keys(properties), outcomes)]
        {
            &&& outcomes.len() <= encryptable_keys(properties).len()
            &&& forall|k: int|
                0 <= k < outcomes.len() ==> callback_gives(
                    f,
                    document_id,
                    properties,
                    encryptable_keys(properties)[k],
                    plaintext_of(properties, encryptable_keys(properties)[k]),
                    #[trigger] outcomes[k],
                )
            &&& sealed(properties, encryptable_keys(properties), outcomes) == result
            &&& result is Ok ==> outcomes.len() == encryptable_keys(properties).len()
        }
}

/// True when `result` is what comes of decrypting `properties` with
/// `decryptor`. Properties without an encrypted one stay as they are, and so do
/// all properties where there is no decryptor. Else the encrypted properties
/// are looked at in the order of their keys, up to the first failure, and the
/// result is what `opened` makes of that.
pub open spec fn decryption_gives<
    DE: Fn(
        Option<String>,
        Dict,
        Option<String>,
        Vec<u8>,
        Option<String>,
        Option<String>,
        &Error,
    ) -> Result<Vec<u8>, EncryptionError>,
>(
    decryptor: Option<DE>,
    document_id: Seq<char>,
    properties: Entries,
    result: Result<Entries, EncryptionError>,
) -> bool {
    if encrypted_names(properties).len() == 0 {
        result == Ok::<Entries, EncryptionError>(properties)
    } else {
        match decryptor {
            None => result == Ok::<Entries, EncryptionError>(properties),
            Some(f) => decryptor_gives(f, document_id, properties, result),
        }
    }
}

/// True when `result` is what comes of asking the decryptor `f` about the
/// encrypted properties of `properties`.
pub open spec fn decryptor_gives<
    DE: Fn(
        Option<String>,
        Dict,
        Option<String>,
        Vec<u8>,
        Option<String>,
        Option<String>,
        &Error,
    ) -> Result<Vec<u8>, EncryptionError>,
>(f: DE, document_id: Seq<char>, properties: Entries, result: Result<Entries, EncryptionError>) -> bool {
    exists|openings: Seq<Opening>|
        #![trigger opened(properties, encrypted_names(properties), openings)]
        {
            &&& openings.len() <= encrypted_names(properties).len()
            &&& forall|k: int|
                0 <= k < openings.len() ==> opening_holds(
                    f,
                    document_id,
                    properties,
                    encrypted_names(properties)[k],
                    #[trigger] openings[k],
                )
            &&& opened(properties, encrypted_names(properties), openings) == result
            &&& result is Ok ==> openings.len() == encrypted_names(properties).len()
        }
}

/// True when `opening` is what became of the encrypted property `name`: its
/// bytes could not be read, or they could and the decryptor returned the
/// outcome for them.
pub open spec fn opening_holds<
    DE: Fn(
        Option<String>,
        Dict,
        Option<String>,
        Vec<u8>,
        Option<String>,
        Option<String>,
        &Error,
    ) -> Result<Vec<u8>, EncryptionError>,
>(f: DE, document_id: Seq<char>, properties: Entries, name: Seq<char>, opening: Opening) -> bool {
    match opening {
        Opening::Unreadable => ciphertext_of(properties, name) is None,
        Opening::Asked(outcome) => ciphertext_of(properties, name) is Some && callback_gives(
            f,
            document_id,
            properties,
            name.skip(10),
            ciphertext_of(properties, name)->0,
            outcome,
        ),
    }
}

/// Encrypts the properties of a document for its way out: every property that
/// is wrapped for encryption is handed to the encryptor, in the order of the
/// keys, and what the encryptor returns takes its place as `with_ciphertext`
/// says, with the algorithm `CB_MOBILE_CUSTOM`.
///
/// Properties without a wrapped value are returned as they are, and the
/// encryptor is not called. Where there is a wrapped value but no encryptor,
/// the result is a permanent failure: a value that is marked for encryption
/// does not go out unencrypted. The first failure of the encryptor is the
/// result, and ends the work.
pub fn encrypt_properties<EN>(
    document_id: &str,
    properties: &MutableDict,
    encryptor: &Option<EN>,
) -> (r: Result<MutableDict, EncryptionError>) where
    EN: Fn(
        Option<String>,
        Dict,
        Option<String>,
        Vec<u8>,
        Option<String>,
        Option<String>,
        &Error,
    ) -> Result<Vec<u8>, EncryptionError>,

    requires
        properties.wf(),
        encryptor matches Some(f) ==> forall|
            id: Option<String>,
            all: Dict,
            key: Option<String>,
            input: Vec<u8>,
            algorithm: Option<String>,
            kid: Option<String>,
            error: &Error,
        | call_requires(f, (id, all, key, input, algorithm, kid, error)),
    ensures
        r matches Ok(d) ==> d.wf(),
        encryption_gives(*encryptor, document_id@, properties.spec_entries(), result_entries(r)),
{
    let keys = list_encryptable(properties);
    let mut out = properties.duplicate();
    if keys.len() == 0 {
        return Ok(out);
    }
    let f = match encryptor {
        Some(f) => f,
        None => {
            return Err(EncryptionError::Permanent);
        },
    };
    let clear = Error::default();
    let ghost all_keys = encryptable_keys(properties.spec_entries());
    let ghost entries = properties.spec_entries();
    let ghost mut outcomes: Seq<Outcome> = Seq::empty();
    let mut i: usize = 0;
    proof {
        properties.lemma_view_is_dict();
        out.lemma_view_is_dict();
        reveal_strlit("CB_MOBILE_CUSTOM");
        assert("CB_MOBILE_CUSTOM"@ =~= custom_algorithm());
    }
    while i < keys.len()
        invariant
            i <= keys.len(),
            keys@.len() > 0,
            crate::database::texts(keys@) == all_keys,
            all_keys == encryptable_keys(properties.spec_entries()),
            entries == properties.spec_entries(),
            properties@ == ValueModel::Dict(entries),
            "CB_MOBILE_CUSTOM"@ == custom_algorithm(),
            clear == Error::spec_new(CBLError { domain: 0, code: 0, internal_info: 0 }),
            encryptor == Some(*f),
            properties.wf(),
            out.wf(),
            outcomes.len() == i,
            forall|k: int|
                0 <= k < i ==> callback_gives(
                    *f,
                    document_id@,
                    entries,
                    all_keys[k],
                    plaintext_of(entries, all_keys[k]),
                    #[trigger] outcomes[k],
                ),
            sealed(entries, all_keys, outcomes) == Ok::<Entries, EncryptionError>(out.spec_entries()),
            forall|
                id: Option<String>,
                all: Dict,
                key: Option<String>,
                input: Vec<u8>,
                algorithm: Option<String>,
                kid: Option<String>,
                error: &Error,
            | call_requires(*f, (id, all, key, input, algorithm, kid, error)),
        decreases keys.len() - i,
    {
        let key = keys[i].as_str();
        assert(key@ == all_keys[i as int]);
        let input = plaintext(properties, key);
        let id = Some(document_id.to_owned());
        let handle = properties.as_dict();
        let key_given = Some(key.to_owned());
        let algorithm = Some(String::from_str("CB_MOBILE_CUSTOM"));
        let kid: Option<String> = None;
        let ghost input0 = input;
        let ghost id0 = id;
        let ghost key0 = key_given;
        let ghost algorithm0 = algorithm;
        let outcome = f(id, handle, key_given, input, algorithm, kid, &clear);
        let ghost given = outcome;
        proof {
            assert(call_ensures(*f, (id0, handle, key0, input0, algorithm0, kid, &clear), given));
            assert(callback_gives(
                *f,
                document_id@,
                entries,
                all_keys[i as int],
                plaintext_of(entries, all_keys[i as int]),
                given,
            ));
            let before = outcomes;
            outcomes = outcomes.push(given);
            assert(outcomes.drop_last() =~= before);
            out.lemma_view_is_dict();
        }
        match outcome {
            Ok(cipher) => {
                put_ciphertext(&mut out, key, &cipher, "CB_MOBILE_CUSTOM", None);
                proof {
                    out.lemma_view_is_dict();
                }
            },
            Err(e) => {
                return Err(e);
            },
        }
        i += 1;
    }
    proof {
        out.lemma_view_is_dict();
    }
    Ok(out)
}

/// Decrypts the properties of a document on its way in: every encrypted
/// property whose bytes can be read is handed to the decryptor, in the order
/// of the keys, and the value that the decrypted bytes stand for takes its
/// place as `with_plaintext` says.
///
/// Properties without an encrypted one are returned as they are, and so are
/// all properties where there is no decryptor: then what is encrypted stays
/// encrypted. The first failure is the result, and ends the work; see
/// `opened`.
pub fn decrypt_properties<DE>(
    document_id: &str,
    properties: &MutableDict,
    decryptor: &Option<DE>,
) -> (r: Result<MutableDict, EncryptionError>) where
    DE: Fn(
        Option<String>,
        Dict,
        Option<String>,
        Vec<u8>,
        Option<String>,
        Option<String>,
        &Error,
    ) -> Result<Vec<u8>, EncryptionError>,

    requires
        properties.wf(),
        decryptor matches Some(f) ==> forall|
            id: Option<String>,
            all: Dict,
            key: Option<String>,
            input: Vec<u8>,
            algorithm: Option<String>,
            kid: Option<String>,
            error: &Error,
        | call_requires(f, (id, all, key, input, algorithm, kid, error)),
    ensures
        r matches Ok(d) ==> d.wf(),
        decryption_gives(*decryptor, document_id@, properties.spec_entries(), result_entries(r)),
{
    let names = list_encrypted(properties);
    let mut out = properties.duplicate();
    if names.len() == 0 {
        return Ok(out);
    }
    let f = match decryptor {
        Some(f) => f,
        None => {
            return Ok(out);
        },
    };
    let clear = Error::default();
    let ghost all_names = encrypted_names(properties.spec_entries());
    let ghost entries = properties.spec_entries();
    let ghost mut openings: Seq<Opening> = Seq::empty();
    let mut i: usize = 0;
    proof {
        properties.lemma_view_is_dict();
        out.lemma_view_is_dict();
        reveal_strlit("CB_MOBILE_CUSTOM");
        assert("CB_MOBILE_CUSTOM"@ =~= custom_algorithm());
        lemma_encrypted_names(entries);
    }
    while i < names.len()
        invariant
            i <= names.len(),
            names@.len() > 0,
            crate::database::texts(names@) == all_names,
            all_names == encrypted_names(properties.spec_entries()),
            forall|k: int|
                0 <= k < all_names.len() ==> (#[trigger] all_names[k]).len() >= 10
                    && all_names[k].subrange(0, 10) == encrypted_prefix(),
            entries == properties.spec_entries(),
            properties@ == ValueModel::Dict(entries),
            "CB_MOBILE_CUSTOM"@ == custom_algorithm(),
            clear == Error::spec_new(CBLError { domain: 0, code: 0, internal_info: 0 }),
            decryptor == Some(*f),
            properties.wf(),
            out.wf(),
            openings.len() == i,
            forall|k: int|
                0 <= k < i ==> opening_holds(
                    *f,
                    document_id@,
                    entries,
                    all_names[k],
                    #[trigger] openings[k],
                ),
            opened(entries, all_names, openings) == Ok::<Entries, EncryptionError>(
                out.spec_entries(),
            ),
            forall|
                id: Option<String>,
                all: Dict,
                key: Option<String>,
                input: Vec<u8>,
                algorithm: Option<String>,
                kid: Option<String>,
                error: &Error,
            | call_requires(*f, (id, all, key, input, algorithm, kid, error)),
        decreases names.len() - i,
    {
        let name = names[i].as_str();
        assert(name@ == all_names[i as int]);
        let ghost before = openings;
        let input = match ciphertext(properties, name) {
            Some(bytes) => bytes,
            None => {
                proof {
                    openings = openings.push(Opening::Unreadable);
                    assert(openings.drop_last() =~= before);
                    assert(openings.last() == Opening::Unreadable);
                    assert(opened(entries, all_names, openings) == Err::<Entries, EncryptionError>(
                        EncryptionError::Permanent,
                    ));
                    assert forall|k: int| 0 <= k < openings.len() implies opening_holds(
                        *f,
                        document_id@,
                        entries,
                        all_names[k],
                        #[trigger] openings[k],
                    ) by {
                        if k < i {
                            assert(openings[k] == before[k]);
                        }
                    }
                    assert(decryptor_gives(
                        *f,
                        document_id@,
                        entries,
                        Err::<Entries, EncryptionError>(EncryptionError::Permanent),
                    ));
                }
                return Err(EncryptionError::Permanent);
            },
        };
        let chars = chars_of(name);
        let key = string_from(&chars, 10);
        let id = Some(document_id.to_owned());
        let handle = properties.as_dict();
        let key_given = Some(key);
        let algorithm = Some(String::from_str("CB_MOBILE_CUSTOM"));
        let kid: Option<String> = None;
        let ghost input0 = input;
        let ghost id0 = id;
        let ghost key0 = key_given;
        let ghost algorithm0 = algorithm;
        let outcome = f(id, handle, key_given, input, algorithm, kid, &clear);
        let ghost given = outcome;
        proof {
            assert(call_ensures(*f, (id0, handle, key0, input0, algorithm0, kid, &clear), given));
            assert(callback_gives(
                *f,
                document_id@,
                entries,
                all_names[i as int].skip(10),
                ciphertext_of(entries, all_names[i as int])->0,
                given,
            ));
            openings = openings.push(Opening::Asked(given));
            assert(openings.drop_last() =~= before);
            out.lemma_view_is_dict();
        }
        match outcome {
            Ok(plain) => {
                match put_plaintext(&mut out, name, plain.as_slice()) {
                    Ok(()) => {
                        proof {
                            out.lemma_view_is_dict();
                        }
                    },
                    Err(_) => {
                        return Err(EncryptionError::Permanent);
                    },
                }
            },
            Err(e) => {
                return Err(e);
            },
        }
        i += 1;
    }
    proof {
        out.lemma_view_is_dict();
    }
    Ok(out)
}

/// The key of every encrypted property begins with `encrypted$`.
pub proof fn lemma_encrypted_names(properties: Entries)
    ensures
        forall|k: int|
            0 <= k < encrypted_names(properties).len() ==> (#[trigger] encrypted_names(
                properties,
            )[k]).len() >= 10 && encrypted_names(properties)[k].subrange(0, 10)
                == encrypted_prefix(),
    decreases properties.len(),
{
    if properties.len() > 0 {
        lemma_encrypted_names(properties.drop_last());
        let all = encrypted_names(properties);
        let before = encrypted_names(properties.drop_last());
        assert forall|k: int| 0 <= k < all.len() implies (#[trigger] all[k]).len() >= 10
            && all[k].subrange(0, 10) == encrypted_prefix() by {
            if k < before.len() {
                assert(all[k] == before[k]);
            } else {
                assert(all[k] == properties.last().0);
            }
        }
    }
}

} // verus!
