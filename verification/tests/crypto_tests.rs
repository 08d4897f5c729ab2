use clipboard_history::crypto::{
    content_hash, generate_config, identity_from_plaintext, is_low_order_recipient, parse_recipient, sealed_entry,
    unlock_identity,
    EncryptedRecord, HistoryEntry, PlaintextPayload, Vault,
};
use clipboard_history::{AppError, CopiedObject, EncryptionConfig, ObjectContent, ObjectFormat};

fn obj(id: u32, date: u64, s: &str) -> CopiedObject {
    CopiedObject {
        id,
        content: ObjectContent::Text(s.to_string()),
        content_format: ObjectFormat::Text,
        date,
        thumbnail: None,
        formatted_content: None,
    }
}

fn payload(id: Option<u32>, date: Option<u64>) -> PlaintextPayload {
    PlaintextPayload {
        id,
        date,
        content: ObjectContent::Text("p".to_string()),
        content_format: ObjectFormat::Text,
        thumbnail: Some(vec![1]),
        formatted_content: None,
    }
}

#[test]
fn content_hash_known_values() {
    assert_eq!(content_hash(&ObjectContent::Text("hello".to_string())), "6t9zKrqW1kP+qjmQmjALyKJbFfq99BvyCBm4zo/TdG8=");
    assert_eq!(content_hash(&ObjectContent::Text(String::new())), "Flj65FfBb8GPPy2OHCpbPgbsMs9dcuQuHYlPhs2ZYiE=");
    assert_eq!(content_hash(&ObjectContent::Rtf(String::new())), "KhB7DKTB2MoxSa/F8EucFHRpUZRzusSpOpyLtV89Nwc=");
    assert_eq!(content_hash(&ObjectContent::Html("<b>".to_string())), "X8rGwhf3rWcOs9QW8ubn6+HZyN0PAXMqVT3sytRqm6I=");
    assert_eq!(content_hash(&ObjectContent::Image(vec![1, 2, 3])), "gfpe26zt0Udz6bhI6r/wszS8rZfG1a92y8Oz+pwYiFM=");
    assert_eq!(
        content_hash(&ObjectContent::Files(vec!["/a".to_string(), "/b".to_string()])),
        "9KgLnSOPqOGn4j2n9gi//v30q/qwrlh4YGSDvbuODx8="
    );
    assert_eq!(
        content_hash(&ObjectContent::Other("x".to_string(), vec![1, 2])),
        "3AgmnTlY6TbYVOU4NuKtMBnJPjuyi0+NRb/7aAQl6HI="
    );
}

#[test]
fn content_hash_tells_kinds_apart() {
    let t = content_hash(&ObjectContent::Text("a".to_string()));
    let h = content_hash(&ObjectContent::Html("a".to_string()));
    assert_ne!(t, h);
    assert_eq!(t, content_hash(&ObjectContent::Text("a".to_string())));
}

#[test]
fn history_entry_id_and_date() {
    let plain = HistoryEntry::Plain(obj(4, 40, "x"));
    assert_eq!(plain.id(), 4);
    assert_eq!(plain.date(), 40);
    let enc = HistoryEntry::Encrypted(EncryptedRecord { id: 5, date: 50, ciphertext: "c".to_string() });
    assert_eq!(enc.id(), 5);
    assert_eq!(enc.date(), 50);
}

#[test]
fn authoritative_id_and_date() {
    let record = EncryptedRecord { id: 1, date: 10, ciphertext: String::new() };
    assert_eq!(payload(Some(9), Some(90)).authoritative_id(&record), 9);
    assert_eq!(payload(Some(9), Some(90)).authoritative_date(&record), 90);
    assert_eq!(payload(None, None).authoritative_id(&record), 1);
    assert_eq!(payload(None, None).authoritative_date(&record), 10);
}

#[test]
fn repair_of_reports_differences_only() {
    let record = EncryptedRecord { id: 1, date: 10, ciphertext: String::new() };
    assert_eq!(payload(Some(1), Some(10)).repair_of(&record), None);
    assert_eq!(payload(None, None).repair_of(&record), None);
    assert_eq!(payload(Some(2), None).repair_of(&record), Some((2, 10)));
    assert_eq!(payload(None, Some(11)).repair_of(&record), Some((1, 11)));
}

#[test]
fn payload_into_object_and_back() {
    let record = EncryptedRecord { id: 1, date: 10, ciphertext: String::new() };
    let o = payload(None, Some(77)).into_object(&record);
    assert_eq!(o.id, 1);
    assert_eq!(o.date, 77);
    assert_eq!(o.thumbnail, Some(vec![1]));
    let p = PlaintextPayload::from_object(&o);
    assert_eq!(p.id, Some(1));
    assert_eq!(p.date, Some(77));
    assert_eq!(p.content, ObjectContent::Text("p".to_string()));
}

#[test]
fn sealed_entry_keeps_id_and_date() {
    match sealed_entry(&obj(3, 30, "s"), "CT".to_string()) {
        HistoryEntry::Encrypted(r) => {
            assert_eq!(r.id, 3);
            assert_eq!(r.date, 30);
            assert_eq!(r.ciphertext, "CT");
        }
        HistoryEntry::Plain(_) => panic!("expected an encrypted entry"),
    }
}

#[test]
fn zeroize_history_entries() {
    let mut e = HistoryEntry::Encrypted(EncryptedRecord { id: 5, date: 50, ciphertext: "c".to_string() });
    e.zeroize();
    assert_eq!(e.id(), 0);
    assert_eq!(e.date(), 0);
    let mut p = HistoryEntry::Plain(obj(4, 40, "secret"));
    p.zeroize();
    match p {
        HistoryEntry::Plain(o) => assert_eq!(o.content, ObjectContent::Text(String::new())),
        HistoryEntry::Encrypted(_) => panic!("variant changed"),
    }
}

/// A fresh x25519 key pair as Bech32 texts: (identity, recipient).
fn new_key() -> (String, String) {
    let id = age::x25519::Identity::generate();
    (age::secrecy::ExposeSecret::expose_secret(&id.to_string()).to_string(), id.to_public().to_string())
}

/// The recipient text of an identity text.
fn recipient_of(identity: &str) -> String {
    identity.parse::<age::x25519::Identity>().unwrap().to_public().to_string()
}

#[test]
fn parse_recipient_accepts_generated_and_rejects_garbage() {
    let (_, text) = new_key();
    assert_eq!(parse_recipient(&text), Ok(text.clone()));
    match parse_recipient("not a key") {
        Err(AppError::Crypto(m)) => assert!(m.starts_with("recipient parse: ")),
        _ => panic!("expected a crypto error"),
    }
}

#[test]
fn encrypt_then_decrypt_round_trip() {
    let (identity, recipient) = new_key();
    let text = PlaintextPayload::encrypt_to_recipient(b"{\"k\":1}", &recipient).unwrap();
    let record = EncryptedRecord { id: 1, date: 2, ciphertext: text };
    assert_eq!(record.decrypt_with_identity(&identity).unwrap(), b"{\"k\":1}".to_vec());
    let (other, _) = new_key();
    assert!(matches!(record.decrypt_with_identity(&other), Err(AppError::Crypto(_))));
}

#[test]
fn encrypt_to_a_bad_recipient_fails() {
    assert!(matches!(PlaintextPayload::encrypt_to_recipient(b"x", "nope"), Err(AppError::Crypto(_))));
}

#[test]
fn decrypt_rejects_bad_base64() {
    let (identity, _) = new_key();
    let record = EncryptedRecord { id: 1, date: 2, ciphertext: "!!!".to_string() };
    match record.decrypt_with_identity(&identity) {
        Err(AppError::Crypto(m)) => assert!(m.starts_with("base64: ")),
        _ => panic!("expected a base64 error"),
    }
}

#[test]
fn generate_then_unlock_identity() {
    let (config, identity) = generate_config("pw").unwrap();
    assert_eq!(config.recipient, recipient_of(&identity));
    assert_eq!(unlock_identity(&config, "pw"), Ok(identity));
    assert_eq!(unlock_identity(&config, "wrong").err(), Some(AppError::BadPassword));
}

#[test]
fn passphrase_file_is_not_an_entry() {
    let (config, identity) = generate_config("pw").unwrap();
    let record = EncryptedRecord { id: 1, date: 1, ciphertext: config.encrypted_identity.clone() };
    assert_eq!(
        record.decrypt_with_identity(&identity).err(),
        Some(AppError::Crypto("ciphertext is passphrase-encrypted, not recipient-encrypted".to_string()))
    );
    let text = PlaintextPayload::encrypt_to_recipient(b"x", &config.recipient).unwrap();
    let wrong = EncryptionConfig { recipient: config.recipient.clone(), encrypted_identity: text };
    assert_eq!(
        unlock_identity(&wrong, "pw").err(),
        Some(AppError::Crypto("encrypted identity is not passphrase-encrypted".to_string()))
    );
}

#[test]
fn unlock_rejects_bad_base64() {
    let config = EncryptionConfig { recipient: String::new(), encrypted_identity: "%%".to_string() };
    match unlock_identity(&config, "pw") {
        Err(AppError::Crypto(m)) => assert!(m.starts_with("base64: ")),
        _ => panic!("expected a base64 error"),
    }
}

#[test]
fn vault_lock_state() {
    let mut v = Vault::default();
    assert!(!v.is_locked());
    let (identity, recipient) = new_key();
    v.recipient = Some(recipient);
    assert!(v.is_locked());
    v.identity = Some(identity);
    assert!(!v.is_locked());
}

fn passphrase_file(text: &[u8], pw: &str) -> String {
    let to = age::scrypt::Recipient::new(age::secrecy::SecretString::from(pw.to_string()));
    let out = age::encrypt(&to, text).unwrap();
    base64::Engine::encode(&base64::engine::general_purpose::STANDARD, &out)
}

#[test]
fn unlock_trims_whitespace_around_identity() {
    let (identity, recipient) = new_key();
    let config = EncryptionConfig {
        recipient,
        encrypted_identity: passphrase_file(format!("  {identity}\n").as_bytes(), "pw"),
    };
    assert_eq!(unlock_identity(&config, "pw"), Ok(identity));
}

#[test]
fn unlock_rejects_text_that_is_no_identity() {
    let config = EncryptionConfig { recipient: String::new(), encrypted_identity: passphrase_file(b"hello", "pw") };
    match unlock_identity(&config, "pw") {
        Err(AppError::Crypto(m)) => assert!(m.starts_with("identity parse: ")),
        other => panic!("unexpected {other:?}"),
    }
    let bad_utf8 = EncryptionConfig { recipient: String::new(), encrypted_identity: passphrase_file(&[0xff, 0xfe], "pw") };
    assert!(matches!(unlock_identity(&bad_utf8, "pw"), Err(AppError::Crypto(_))));
}

fn recipient_with_key(key: [u8; 32]) -> String {
    bech32::encode("age", bech32::ToBase32::to_base32(&key), bech32::Variant::Bech32).unwrap()
}

#[test]
fn low_order_recipients_are_refused() {
    let zero = recipient_with_key([0u8; 32]);
    assert!(parse_recipient(&zero).is_ok());
    assert!(is_low_order_recipient(&zero));
    let mut one = [0u8; 32];
    one[0] = 1;
    assert!(is_low_order_recipient(&recipient_with_key(one)));
    assert_eq!(
        PlaintextPayload::encrypt_to_recipient(b"x", &zero),
        Err(AppError::Crypto("recipient is a low-order key".to_string()))
    );
    let (_, good) = new_key();
    assert!(!is_low_order_recipient(&good));
    assert!(!is_low_order_recipient("not a key"));
}

#[test]
fn identity_is_read_from_the_decrypted_text() {
    let (identity, _) = new_key();
    assert_eq!(identity_from_plaintext(format!("\n {identity} \t").into_bytes()), Ok(identity.clone()));
    assert_eq!(identity_from_plaintext(format!("\u{3000}{identity}\u{85}\r\n").into_bytes()), Ok(identity.clone()));
    match identity_from_plaintext(b"nope".to_vec()) {
        Err(AppError::Crypto(m)) => assert!(m.starts_with("identity parse: ")),
        other => panic!("unexpected {other:?}"),
    }
    assert!(matches!(identity_from_plaintext(vec![0xff]), Err(AppError::Crypto(_))));
}
