// Properties that are encrypted on their way out and decrypted on their way
// in.

use couchbase_lite::base64::decode_base64;
use couchbase_lite::encryption::{
    ciphertext, decrypt_properties, encrypt_properties, list_encryptable, list_encrypted, plaintext,
    put_ciphertext, put_plaintext, EncryptionError,
};
use couchbase_lite::json::encode_base64;
use couchbase_lite::replicator::{ReplicatorAction, ReplicatorEvent};
use couchbase_lite::{
    ConcurrencyControl, CouchbaseLiteError, Database, Dict, Document, Encryptable, Endpoint, Error,
    ErrorCode, MutableArray, MutableDict, Replicator, ReplicatorConfiguration, ReplicatorType,
};

type Filter = fn(&Document, bool, bool) -> bool;
type Resolver = fn(&str, Option<Document>, Option<Document>) -> Option<Document>;
type Cipher = fn(
    Option<String>,
    Dict,
    Option<String>,
    Vec<u8>,
    Option<String>,
    Option<String>,
    &Error,
) -> Result<Vec<u8>, EncryptionError>;

const NO_FILTER: Option<Filter> = None;
const NO_RESOLVER: Option<Resolver> = None;
const NO_CIPHER: Option<Cipher> = None;

fn encryptor(
    _document_id: Option<String>,
    _properties: Dict,
    _key_path: Option<String>,
    input: Vec<u8>,
    _algorithm: Option<String>,
    _kid: Option<String>,
    _error: &Error,
) -> Result<Vec<u8>, EncryptionError> {
    Ok(input.iter().map(|u| u ^ 48).collect())
}
fn decryptor(
    _document_id: Option<String>,
    _properties: Dict,
    _key_path: Option<String>,
    input: Vec<u8>,
    _algorithm: Option<String>,
    _kid: Option<String>,
    _error: &Error,
) -> Result<Vec<u8>, EncryptionError> {
    Ok(input.iter().map(|u| u ^ 48).collect())
}
fn encryptor_err_temporary(
    _document_id: Option<String>,
    _properties: Dict,
    _key_path: Option<String>,
    _: Vec<u8>,
    _algorithm: Option<String>,
    _kid: Option<String>,
    _error: &Error,
) -> Result<Vec<u8>, EncryptionError> {
    Err(EncryptionError::Temporary)
}
fn decryptor_err_temporary(
    _document_id: Option<String>,
    _properties: Dict,
    _key_path: Option<String>,
    _: Vec<u8>,
    _algorithm: Option<String>,
    _kid: Option<String>,
    _error: &Error,
) -> Result<Vec<u8>, EncryptionError> {
    Err(EncryptionError::Temporary)
}
fn encryptor_err_permanent(
    _document_id: Option<String>,
    _properties: Dict,
    _key_path: Option<String>,
    _: Vec<u8>,
    _algorithm: Option<String>,
    _kid: Option<String>,
    _error: &Error,
) -> Result<Vec<u8>, EncryptionError> {
    Err(EncryptionError::Permanent)
}
fn decryptor_err_permanent(
    _document_id: Option<String>,
    _properties: Dict,
    _key_path: Option<String>,
    _: Vec<u8>,
    _algorithm: Option<String>,
    _kid: Option<String>,
    _error: &Error,
) -> Result<Vec<u8>, EncryptionError> {
    Err(EncryptionError::Permanent)
}

fn replicator(local: &Database, central: &Database, continuous: bool) -> Replicator {
    let mut replicator = Replicator::new(ReplicatorConfiguration {
        database: local.name().to_string(),
        endpoint: Endpoint::new_with_local_db(central),
        replicator_type: ReplicatorType::PushAndPull,
        continuous,
        disable_auto_purge: true,
        max_attempts: 4,
        max_attempt_wait_time: 100,
        heartbeat: 120,
        authenticator: None,
        proxy: None,
        headers: Vec::new(),
        pinned_server_certificate: None,
        trusted_root_certificates: None,
        channels: MutableArray::default(),
        document_ids: MutableArray::default(),
    })
    .unwrap();
    if continuous {
        start(&mut replicator);
    }
    replicator
}

// Plays the transport: the connection stands at once.
fn start(replicator: &mut Replicator) {
    assert_eq!(replicator.start(false), ReplicatorAction::Connect);
    replicator.handle(ReplicatorEvent::Connected { work_pending: true });
}

// Plays the transport at the end of a run that is not continuous.
fn finish(replicator: &mut Replicator) {
    assert_eq!(replicator.handle(ReplicatorEvent::CaughtUp), ReplicatorAction::Disconnect);
}

fn sync(
    replicator: &mut Replicator,
    local: &mut Database,
    central: &mut Database,
    encryptor: &Option<Cipher>,
    decryptor: &Option<Cipher>,
) -> Vec<couchbase_lite::ReplicatedDocument> {
    let mut reports = replicator.push_with_encryption(&NO_FILTER, encryptor, local, central);
    reports.extend(replicator.pull_with_decryption(
        &NO_FILTER,
        &NO_RESOLVER,
        decryptor,
        local,
        central,
    ));
    reports
}

fn save_with_encryptable(db: &mut Database) {
    let mut doc_db1 = Document::new_with_id("foo");
    let props = doc_db1.mutable_properties();
    props.at("i").put_i64(1234);
    props
        .at("s")
        .put_encrypt(&Encryptable::create_with_string("test_encryption"));
    db.save_document_with_concurency_control(&mut doc_db1, ConcurrencyControl::FailOnConflict)
        .expect("save");
}

fn save_with_encrypted(db: &mut Database) {
    let mut doc_db1 = Document::new_with_id("foo");

    let doc = r#"{"i":1234,"encrypted$s":{"alg":"CB_MOBILE_CUSTOM","ciphertext":"EkRVQ0RvVV5TQklARFlfXhI="}}"#;
    doc_db1.set_properties_as_json(&doc).unwrap();

    db.save_document_with_concurency_control(&mut doc_db1, ConcurrencyControl::FailOnConflict)
        .expect("save");
}

fn is_crypto(report: &couchbase_lite::ReplicatedDocument) -> bool {
    report.error
        == Err(Error { code: ErrorCode::CouchbaseLite(CouchbaseLiteError::Crypto), internal_info: None })
}

#[test]
fn encryption_ok_decryption_ok() {
    let mut local_db1 = Database::open("local1", None).unwrap();
    let mut local_db2 = Database::open("local2", None).unwrap();
    let mut central_db = Database::open("central", None).unwrap();
    let mut repl1 = replicator(&local_db1, &central_db, true);
    let mut repl2 = replicator(&local_db2, &central_db, true);
    let enc: Option<Cipher> = Some(encryptor);
    let dec: Option<Cipher> = Some(decryptor);

    // Save doc 'foo' with an encryptable property
    save_with_encryptable(&mut local_db1);

    // Check document is replicated with data encrypted in central
    sync(&mut repl1, &mut local_db1, &mut central_db, &enc, &dec);
    assert!(central_db.get_document("foo").is_ok());
    {
        let doc_central = central_db.get_document("foo").unwrap();
        let dict = doc_central.properties();
        assert!(dict.to_keys_hash_set().iter().any(|k| k == "encrypted$s"));
        assert_eq!(
            dict.to_json(),
            r#"{"encrypted$s":{"alg":"CB_MOBILE_CUSTOM","ciphertext":"EkRVQ0RvVV5TQklARFlfXhI="},"i":1234}"#
        );
    }

    // Check document is replicated with data decrypted in DB 2
    sync(&mut repl2, &mut local_db2, &mut central_db, &enc, &dec);
    assert!(local_db2.get_document("foo").is_ok());
    {
        let doc_db2 = local_db2.get_document("foo").unwrap();
        let dict = doc_db2.properties();
        let value = dict.get("s");
        assert!(value.is_encryptable());
        let encryptable = value.get_encryptable_value();
        assert!(encryptable.get_value().as_string() == Some("test_encryption"));
        drop(encryptable);
    }
}

#[test]
fn encryption_error_temporary() {
    let mut local_db = Database::open("local", None).unwrap();
    let mut central_db = Database::open("central", None).unwrap();
    let mut repl = replicator(&local_db, &central_db, false);

    // Save doc 'foo' with an encryptable property
    save_with_encryptable(&mut local_db);
    assert!(local_db.get_document("foo").is_ok());

    // Manually trigger the replication
    start(&mut repl);
    let failing: Option<Cipher> = Some(encryptor_err_temporary);
    let reports = sync(&mut repl, &mut local_db, &mut central_db, &failing, &Some(decryptor));
    finish(&mut repl);

    // Check document is not replicated in central because of the encryption error
    assert!(central_db.get_document("foo").is_err());
    assert_eq!(reports.len(), 1);
    assert!(is_crypto(&reports[0]));

    // Change the encryptor to make the encryption work, and trigger the replication
    start(&mut repl);
    sync(&mut repl, &mut local_db, &mut central_db, &Some(encryptor), &Some(decryptor));

    // Check document is replicated in central
    assert!(central_db.get_document("foo").is_ok());
}

#[test]
fn decryption_error_temporary() {
    let mut local_db = Database::open("local", None).unwrap();
    let mut central_db = Database::open("central", None).unwrap();
    let mut repl = replicator(&local_db, &central_db, false);

    // Save doc 'foo' with an encrypted property in central
    save_with_encrypted(&mut central_db);
    assert!(central_db.get_document("foo").is_ok());

    // Manually trigger the replication
    start(&mut repl);
    let failing: Option<Cipher> = Some(decryptor_err_temporary);
    let reports = sync(&mut repl, &mut local_db, &mut central_db, &Some(encryptor), &failing);
    finish(&mut repl);

    // Check document is not replicated in local because of the decryption error
    assert!(local_db.get_document("foo").is_err());
    assert_eq!(reports.len(), 1);
    assert!(is_crypto(&reports[0]));

    // Change the decryptor to make the decryption work, and trigger the replication
    start(&mut repl);
    sync(&mut repl, &mut local_db, &mut central_db, &Some(encryptor), &Some(decryptor));

    // Check document is replicated in local
    assert!(local_db.get_document("foo").is_ok());
    let doc = local_db.get_document("foo").unwrap();
    assert_eq!(
        doc.properties().get("s").get_encryptable_value().get_value().as_string(),
        Some("test_encryption")
    );
}

#[test]
fn encryption_error_permanent() {
    let mut local_db = Database::open("local", None).unwrap();
    let mut central_db = Database::open("central", None).unwrap();
    let mut repl = replicator(&local_db, &central_db, false);

    // Save doc 'foo' with an encryptable property
    save_with_encryptable(&mut local_db);
    assert!(local_db.get_document("foo").is_ok());

    // Manually trigger the replication
    start(&mut repl);
    let failing: Option<Cipher> = Some(encryptor_err_permanent);
    sync(&mut repl, &mut local_db, &mut central_db, &failing, &Some(decryptor));
    finish(&mut repl);

    // Check document is not replicated in central because of the encryption error
    assert!(central_db.get_document("foo").is_err());

    // Change the encryptor to make the encryption work, and trigger the replication
    start(&mut repl);
    sync(&mut repl, &mut local_db, &mut central_db, &Some(encryptor), &Some(decryptor));
    finish(&mut repl);

    // Check document is not replicated in central
    assert!(central_db.get_document("foo").is_err());

    // Create new revision for document 'foo' in local
    let mut doc = local_db.get_document("foo").unwrap();
    let props = doc.mutable_properties();
    props.at("i").put_i64(1235);

    local_db
        .save_document_with_concurency_control(&mut doc, ConcurrencyControl::FailOnConflict)
        .expect("save");

    // Manually trigger the replication
    start(&mut repl);
    sync(&mut repl, &mut local_db, &mut central_db, &Some(encryptor), &Some(decryptor));

    // Check document is replicated in central
    assert!(central_db.get_document("foo").is_ok());
}

#[test]
fn decryption_error_permanent() {
    let mut local_db = Database::open("local", None).unwrap();
    let mut central_db = Database::open("central", None).unwrap();
    let mut repl = replicator(&local_db, &central_db, false);

    // Save doc 'foo' with an encrypted property in central
    save_with_encrypted(&mut central_db);
    assert!(central_db.get_document("foo").is_ok());

    // Manually trigger the replication
    start(&mut repl);
    let failing: Option<Cipher> = Some(decryptor_err_permanent);
    sync(&mut repl, &mut local_db, &mut central_db, &Some(encryptor), &failing);
    finish(&mut repl);

    // Check document is not replicated in local because of the decryption error
    assert!(local_db.get_document("foo").is_err());

    // Change the decryptor to make the decryption work, and trigger the replication
    start(&mut repl);
    sync(&mut repl, &mut local_db, &mut central_db, &Some(encryptor), &Some(decryptor));
    finish(&mut repl);

    // Check document is not replicated in local
    assert!(local_db.get_document("foo").is_err());

    // Create new revision for document 'foo' in central
    let mut doc = central_db.get_document("foo").unwrap();
    let props = doc.mutable_properties();
    props.at("i").put_i64(1235);

    central_db
        .save_document_with_concurency_control(&mut doc, ConcurrencyControl::FailOnConflict)
        .expect("save");

    // Manually trigger the replication
    start(&mut repl);
    sync(&mut repl, &mut local_db, &mut central_db, &Some(encryptor), &Some(decryptor));

    // Check document is replicated in local
    assert!(local_db.get_document("foo").is_ok());
}

#[test]
fn marked_values_do_not_go_out_unencrypted() {
    let mut local_db = Database::open("local", None).unwrap();
    let mut central_db = Database::open("central", None).unwrap();
    let mut repl = replicator(&local_db, &central_db, true);
    save_with_encryptable(&mut local_db);
    let reports = sync(&mut repl, &mut local_db, &mut central_db, &NO_CIPHER, &NO_CIPHER);
    assert_eq!(reports.len(), 1);
    assert!(is_crypto(&reports[0]));
    assert!(central_db.get_document("foo").is_err());

    // without a decryptor what is encrypted stays encrypted
    let mut other = Database::open("other", None).unwrap();
    save_with_encrypted(&mut central_db);
    let mut repl2 = replicator(&other, &central_db, true);
    sync(&mut repl2, &mut other, &mut central_db, &NO_CIPHER, &NO_CIPHER);
    assert_eq!(
        other.get_document("foo").unwrap().properties_as_json(),
        central_db.get_document("foo").unwrap().properties_as_json()
    );
}

#[test]
fn base64_reads_what_it_wrote() {
    for data in [&b""[..], b"f", b"fo", b"foo", b"foob", b"fooba", b"foobar", &[0, 255, 128, 7]] {
        let text = encode_base64(&data.to_vec());
        assert_eq!(decode_base64(&text), Some(data.to_vec()));
    }
    assert_eq!(decode_base64("Zm9vYmFy"), Some(b"foobar".to_vec()));
    assert_eq!(decode_base64("Zg=="), Some(b"f".to_vec()));
    for bad in ["Z", "Zg=", "Zg", "Z===", "Zh==", "Zm9=", "Zm8=Zm8=", "Zm9v\n", "Zm 9", "=Zm9", "Zg==Zg=="] {
        assert_eq!(decode_base64(bad), None, "{}", bad);
    }
}

#[test]
fn properties_step_by_step() {
    let mut props = MutableDict::new();
    props.at("a").put_i64(1);
    props.at("secret").put_encrypt(&Encryptable::create_with_int(42));
    props.at("z").put_encrypt(&Encryptable::create_with_string("s"));
    assert_eq!(list_encryptable(&props), vec!["secret", "z"]);
    assert!(list_encrypted(&props).is_empty());
    assert_eq!(plaintext(&props, "secret"), b"42".to_vec());
    assert_eq!(plaintext(&props, "z"), b"\"s\"".to_vec());

    put_ciphertext(&mut props, "secret", &vec![1, 2, 3], "ALG", Some("key-1"));
    assert_eq!(
        props.to_json(),
        r#"{"a":1,"encrypted$secret":{"alg":"ALG","ciphertext":"AQID","kid":"key-1"},"z":{"@type":"encryptable","value":"s"}}"#
    );
    assert_eq!(list_encrypted(&props), vec!["encrypted$secret"]);
    assert_eq!(ciphertext(&props, "encrypted$secret"), Some(vec![1, 2, 3]));
    assert_eq!(ciphertext(&props, "a"), None);
    assert_eq!(ciphertext(&props, "missing"), None);

    assert!(put_plaintext(&mut props, "encrypted$secret", b"[true]").is_ok());
    assert_eq!(
        props.to_json(),
        r#"{"a":1,"secret":{"@type":"encryptable","value":[true]},"z":{"@type":"encryptable","value":"s"}}"#
    );
    let before = props.to_json();
    for (name, bytes) in [("encrypted$x", &b"{"[..]), ("encrypted$x", &[0xff][..]), ("plain", b"1")] {
        let e = put_plaintext(&mut props, name, bytes).unwrap_err();
        assert_eq!(e.code, ErrorCode::CouchbaseLite(CouchbaseLiteError::Crypto));
        assert_eq!(props.to_json(), before);
    }

    let sealed = encrypt_properties("doc", &props, &Some(encryptor as Cipher)).unwrap();
    assert_eq!(list_encrypted(&sealed), vec!["encrypted$secret", "encrypted$z"]);
    let opened = decrypt_properties("doc", &sealed, &Some(decryptor as Cipher)).unwrap();
    assert_eq!(opened, props);
    assert_eq!(
        encrypt_properties("doc", &props, &NO_CIPHER).unwrap_err(),
        EncryptionError::Permanent
    );
    assert_eq!(decrypt_properties("doc", &sealed, &NO_CIPHER).unwrap(), sealed);
}

#[test]
fn marking_values() {
    let mut d = MutableDict::new();
    d.at("n").put_encrypt(&Encryptable::create_with_null());
    d.at("b").put_encrypt(&Encryptable::create_with_bool(true));
    d.at("u").put_encrypt(&Encryptable::create_with_uint(u64::MAX));
    let mut list = MutableArray::new();
    list.append().put_i64(1);
    d.at("a").put_encrypt(&Encryptable::create_with_array(list.as_array()));
    let mut inner = MutableDict::new();
    inner.at("k").put_string("v");
    d.at("d").put_encrypt(&Encryptable::create_with_dict(inner.as_dict()));
    d.at("v").put_encrypt(&Encryptable::create_with_value(inner.get("k")));
    d.at("plain").put_i64(5);
    assert_eq!(list_encryptable(&d), vec!["a", "b", "d", "n", "u", "v"]);
    assert_eq!(plaintext(&d, "a"), b"[1]".to_vec());
    assert_eq!(plaintext(&d, "b"), b"true".to_vec());
    assert_eq!(plaintext(&d, "d"), b"{\"k\":\"v\"}".to_vec());
    assert_eq!(plaintext(&d, "n"), b"null".to_vec());
    assert_eq!(plaintext(&d, "u"), b"18446744073709551615".to_vec());
    assert_eq!(plaintext(&d, "v"), b"\"v\"".to_vec());
    assert!(d.get("b").is_encryptable());
    assert!(!d.get("plain").is_encryptable());
    assert!(!d.get("missing").is_encryptable());
    assert_eq!(d.get("b").get_encryptable_value().get_value().as_bool(), Some(true));
    let marked = Encryptable::create_with_int(-3);
    assert_eq!(marked.get_value().as_i64(), Some(-3));
    assert_eq!(marked.get_properties().to_json(), r#"{"@type":"encryptable","value":-3}"#);
    assert!(marked.get_properties().as_dict().is_encryptable());
}

#[test]
fn set_encryptable_value_marks_the_entry() {
    let mut d = MutableDict::new();
    d.at("plain").put_i64(5);
    MutableDict::set_encryptable_value(&mut d, "secret", &Encryptable::create_with_string("abc"));
    assert!(d.is_changed());
    assert_eq!(d.count(), 2);
    assert!(d.get("secret").is_encryptable());
    assert_eq!(d.get("secret").get_encryptable_value().get_value().as_string(), Some("abc"));
    assert_eq!(
        d.to_json(),
        r#"{"plain":5,"secret":{"@type":"encryptable","value":"abc"}}"#
    );
    MutableDict::set_encryptable_value(&mut d, "plain", &Encryptable::create_with_bool(false));
    assert_eq!(d.count(), 2);
    assert_eq!(list_encryptable(&d), vec!["plain", "secret"]);
}
