use clipboard_history::cache::{DecryptedCache, DecryptedPreviewCache};
use clipboard_history::clipboard::{capture_kind, CaptureKind, ClipboardWrite};
use clipboard_history::crypto::{EncryptedRecord, HistoryEntry, PlaintextPayload, Vault};
use clipboard_history::entry::{entry_clipboard_write, entry_object, full_content};
use clipboard_history::history::{append_entry, prune_history};
use clipboard_history::listing::load_previews;
use clipboard_history::migration::{decrypt_entries, encrypt_entries};
use clipboard_history::search::search_entries;
use clipboard_history::{AppError, CopiedObject, ObjectContent, ObjectFormat, PreviewContent};

fn text_object(id: u32, date: u64, s: &str) -> CopiedObject {
    CopiedObject {
        id,
        content: ObjectContent::Text(s.to_string()),
        content_format: ObjectFormat::Text,
        date,
        thumbnail: None,
        formatted_content: None,
    }
}

fn plain(id: u32, date: u64, s: &str) -> HistoryEntry {
    HistoryEntry::Plain(text_object(id, date, s))
}

/// A small stand-in for the JSON form: "id;date;text", id and date optional.
fn serialize_text(p: &PlaintextPayload) -> Result<Vec<u8>, AppError> {
    match &p.content {
        ObjectContent::Text(t) => {
            let id = p.id.map_or(String::new(), |i| i.to_string());
            let date = p.date.map_or(String::new(), |d| d.to_string());
            Ok(format!("{id};{date};{t}").into_bytes())
        }
        _ => Err(AppError::SerdeJson("only text".to_string())),
    }
}

fn parse_text(b: &[u8]) -> Result<PlaintextPayload, AppError> {
    let s = std::str::from_utf8(b).map_err(|e| AppError::SerdeJson(e.to_string()))?;
    let mut parts = s.splitn(3, ';');
    let id = parts.next().and_then(|x| x.parse::<u32>().ok());
    let date = parts.next().and_then(|x| x.parse::<u64>().ok());
    let text = parts.next().ok_or_else(|| AppError::SerdeJson("missing text".to_string()))?;
    Ok(PlaintextPayload {
        id,
        date,
        content: ObjectContent::Text(text.to_string()),
        content_format: ObjectFormat::Text,
        thumbnail: None,
        formatted_content: None,
    })
}

/// An x25519 key pair, as the library holds it: the Bech32 texts.
struct Key {
    secret: String,
    public: String,
}

impl Key {
    fn generate() -> Key {
        let id = age::x25519::Identity::generate();
        Key {
            secret: age::secrecy::ExposeSecret::expose_secret(&id.to_string()).to_string(),
            public: id.to_public().to_string(),
        }
    }

    fn to_public(&self) -> String {
        self.public.clone()
    }

    fn as_str(&self) -> &str {
        &self.secret
    }
}

impl std::ops::Deref for Key {
    type Target = str;
    fn deref(&self) -> &str {
        &self.secret
    }
}

fn sealed_text(recipient: &str, id: u32, date: u64, body: &str) -> HistoryEntry {
    let ciphertext = PlaintextPayload::encrypt_to_recipient(body.as_bytes(), recipient).unwrap();
    HistoryEntry::Encrypted(EncryptedRecord { id, date, ciphertext })
}

fn open_vault(identity: &Key) -> Vault {
    Vault { recipient: Some(identity.to_public()), identity: Some(identity.secret.clone()) }
}

fn text_of(e: &HistoryEntry) -> String {
    match e {
        HistoryEntry::Plain(o) => match &o.content {
            ObjectContent::Text(t) => t.clone(),
            _ => panic!("not text"),
        },
        HistoryEntry::Encrypted(_) => panic!("still encrypted"),
    }
}

#[test]
fn encrypting_then_decrypting_gives_the_history_back() {
    let identity = Key::generate();
    let recipient = identity.to_public();
    let history = vec![plain(1, 10, "alpha"), plain(2, 20, "beta")];
    let sealed = encrypt_entries(history, &recipient, serialize_text).unwrap();
    assert_eq!(sealed.len(), 2);
    for (e, (id, date)) in sealed.iter().zip([(1, 10), (2, 20)]) {
        match e {
            HistoryEntry::Encrypted(r) => {
                assert_eq!((r.id, r.date), (id, date));
                assert!(!r.ciphertext.contains("alpha"));
            }
            HistoryEntry::Plain(_) => panic!("left in plain"),
        }
    }
    let opened = decrypt_entries(sealed, &identity, parse_text).unwrap();
    assert_eq!(opened.iter().map(HistoryEntry::id).collect::<Vec<_>>(), vec![1, 2]);
    assert_eq!(opened.iter().map(HistoryEntry::date).collect::<Vec<_>>(), vec![10, 20]);
    assert_eq!(text_of(&opened[0]), "alpha");
    assert_eq!(text_of(&opened[1]), "beta");
}

#[test]
fn encrypting_keeps_encrypted_entries() {
    let identity = Key::generate();
    let recipient = identity.to_public();
    let record = EncryptedRecord { id: 5, date: 50, ciphertext: "kept".to_string() };
    let out = encrypt_entries(vec![HistoryEntry::Encrypted(record)], &recipient, serialize_text).unwrap();
    match &out[0] {
        HistoryEntry::Encrypted(r) => assert_eq!((r.id, r.date, r.ciphertext.as_str()), (5, 50, "kept")),
        HistoryEntry::Plain(_) => panic!("changed"),
    }
}

#[test]
fn encrypting_reports_serialization_errors() {
    let identity = Key::generate();
    let image = HistoryEntry::Plain(CopiedObject {
        id: 1,
        content: ObjectContent::Image(vec![1, 2]),
        content_format: ObjectFormat::Image,
        date: 1,
        thumbnail: None,
        formatted_content: None,
    });
    assert_eq!(
        encrypt_entries(vec![image], &identity.to_public(), serialize_text).err(),
        Some(AppError::SerdeJson("only text".to_string()))
    );
}

#[test]
fn decrypting_uses_payload_id_and_date() {
    let identity = Key::generate();
    let entry = sealed_text(&identity.to_public(), 3, 30, "7;70;moved");
    let out = decrypt_entries(vec![entry, plain(4, 40, "p")], &identity, parse_text).unwrap();
    assert_eq!((out[0].id(), out[0].date()), (7, 70));
    assert_eq!(text_of(&out[0]), "moved");
    assert_eq!(text_of(&out[1]), "p");
}

#[test]
fn decrypting_with_another_identity_fails() {
    let identity = Key::generate();
    let other = Key::generate();
    let entry = sealed_text(&identity.to_public(), 1, 1, ";;x");
    assert!(matches!(decrypt_entries(vec![entry], &other, parse_text), Err(AppError::Crypto(_))));
}

#[test]
fn decrypting_reports_parse_errors() {
    let identity = Key::generate();
    let entry = sealed_text(&identity.to_public(), 1, 1, "no separators");
    assert_eq!(
        decrypt_entries(vec![entry], &identity, parse_text).err(),
        Some(AppError::SerdeJson("missing text".to_string()))
    );
}

#[test]
fn search_finds_plain_and_encrypted_entries() {
    let identity = Key::generate();
    let vault = open_vault(&identity);
    let history = vec![
        plain(1, 1, "Hello World"),
        sealed_text(&identity.to_public(), 2, 2, ";;hello there"),
        plain(3, 3, "goodbye"),
    ];
    let mut cache = DecryptedCache::new();
    assert_eq!(search_entries(&history, "HELLO", &vault, &mut cache, parse_text), Ok(vec![1, 2]));
    assert_eq!(search_entries(&history, "hello world", &vault, &mut cache, parse_text), Ok(vec![1]));
    assert_eq!(search_entries(&history, "  ", &vault, &mut cache, parse_text), Ok(vec![1, 2, 3]));
}

#[test]
fn search_uses_the_cached_object() {
    let identity = Key::generate();
    let vault = open_vault(&identity);
    let history = vec![sealed_text(&identity.to_public(), 2, 2, ";;stored text")];
    let mut cache = DecryptedCache::new();
    cache.insert(2, text_object(2, 2, "cached words"));
    assert_eq!(search_entries(&history, "cached", &vault, &mut cache, parse_text), Ok(vec![2]));
    assert_eq!(search_entries(&history, "stored", &vault, &mut cache, parse_text), Ok(vec![]));
}

#[test]
fn search_of_a_locked_vault_is_refused() {
    let identity = Key::generate();
    let vault = Vault { recipient: Some(identity.to_public()), identity: None };
    let history = vec![plain(1, 1, "x")];
    let mut cache = DecryptedCache::new();
    assert_eq!(search_entries(&history, "x", &vault, &mut cache, parse_text), Err(AppError::Locked));
    assert_eq!(search_entries(&history, "", &vault, &mut cache, parse_text), Ok(vec![1]));
}

#[test]
fn encrypted_entry_without_identity_is_locked() {
    let identity = Key::generate();
    let vault = Vault::new();
    let history = vec![sealed_text(&identity.to_public(), 1, 1, ";;x")];
    let mut cache = DecryptedCache::new();
    assert_eq!(search_entries(&history, "x", &vault, &mut cache, parse_text), Err(AppError::Locked));
}

#[test]
fn listing_builds_previews_and_repairs() {
    let identity = Key::generate();
    let vault = open_vault(&identity);
    let history = vec![plain(1, 10, "first"), sealed_text(&identity.to_public(), 3, 30, "7;70;second")];
    let mut cache = DecryptedPreviewCache::new();
    let (previews, repairs) = load_previews(&history, &vault, &mut cache, parse_text).unwrap();
    assert_eq!(previews.len(), 2);
    assert_eq!(previews[0].preview, PreviewContent::Text("first".to_string()));
    assert_eq!((previews[1].id, previews[1].date), (7, 70));
    assert_eq!(previews[1].preview, PreviewContent::Text("second".to_string()));
    assert_eq!(repairs, vec![(1, 7, 70)]);
    assert!(cache.get(1).is_some());
    assert!(cache.get(7).is_some());
}

#[test]
fn listing_prefers_the_cached_preview() {
    let vault = Vault::new();
    let history = vec![plain(1, 10, "fresh")];
    let mut cache = DecryptedPreviewCache::new();
    let mut stale = clipboard_history::CopiedObjectPreview::from_full(&text_object(1, 10, "stale"));
    stale.has_formatting = true;
    cache.insert(1, stale);
    let (previews, repairs) = load_previews(&history, &vault, &mut cache, parse_text).unwrap();
    assert_eq!(previews[0].preview, PreviewContent::Text("stale".to_string()));
    assert!(repairs.is_empty());
}

#[test]
fn listing_a_locked_vault_is_refused() {
    let identity = Key::generate();
    let vault = Vault { recipient: Some(identity.to_public()), identity: None };
    let mut cache = DecryptedPreviewCache::new();
    assert_eq!(load_previews(&vec![plain(1, 1, "x")], &vault, &mut cache, parse_text).err(), Some(AppError::Locked));
}

#[test]
fn full_content_reads_and_caches() {
    let identity = Key::generate();
    let history = vec![plain(1, 10, "one"), sealed_text(&identity.to_public(), 2, 20, ";;two")];
    let mut cache = DecryptedCache::new();
    let got = full_content(Ok(&history), 2, Some(identity.as_str()), &mut cache, parse_text).unwrap();
    assert_eq!(got, text_object(2, 20, "two"));
    assert_eq!(cache.get(2), Some(text_object(2, 20, "two")));
    let err = full_content(Ok(&history), 9, Some(identity.as_str()), &mut cache, parse_text);
    assert_eq!(err, Err(AppError::Custom("No item with id: 9 in history".to_string())));
}

#[test]
fn full_content_hit_needs_no_history() {
    let mut cache = DecryptedCache::new();
    cache.insert(4, text_object(4, 4, "cached"));
    let failed = Err(AppError::TauriStore("unreadable".to_string()));
    assert_eq!(full_content(failed.clone(), 4, None, &mut cache, parse_text), Ok(text_object(4, 4, "cached")));
    assert_eq!(full_content(failed, 5, None, &mut cache, parse_text), Err(AppError::TauriStore("unreadable".to_string())));
}

#[test]
fn entry_object_of_encrypted_entry_needs_identity() {
    let identity = Key::generate();
    let entry = sealed_text(&identity.to_public(), 1, 1, ";;x");
    assert_eq!(entry_object(&entry, None, parse_text), Err(AppError::Locked));
    assert_eq!(entry_object(&entry, Some(identity.as_str()), parse_text), Ok(text_object(1, 1, "x")));
}

#[test]
fn copying_back_prefers_formatted_content() {
    let identity = Key::generate();
    let html = HistoryEntry::Plain(CopiedObject {
        id: 1,
        content: ObjectContent::Text("plain".to_string()),
        content_format: ObjectFormat::Html,
        date: 1,
        thumbnail: None,
        formatted_content: Some("<b>plain</b>".to_string()),
    });
    let history = vec![html, sealed_text(&identity.to_public(), 2, 2, ";;secret")];
    match entry_clipboard_write(&history, 1, None, true, parse_text) {
        Ok(ClipboardWrite::Html(h)) => assert_eq!(h, "<b>plain</b>"),
        other => panic!("unexpected {other:?}"),
    }
    match entry_clipboard_write(&history, 1, None, false, parse_text) {
        Ok(ClipboardWrite::Text(t)) => assert_eq!(t, "plain"),
        other => panic!("unexpected {other:?}"),
    }
    match entry_clipboard_write(&history, 2, Some(identity.as_str()), true, parse_text) {
        Ok(ClipboardWrite::Text(t)) => assert_eq!(t, "secret"),
        other => panic!("unexpected {other:?}"),
    }
    assert!(matches!(entry_clipboard_write(&history, 2, None, true, parse_text), Err(AppError::Locked)));
    assert!(matches!(entry_clipboard_write(&history, 3, None, true, parse_text), Err(AppError::Custom(_))));
}

#[test]
fn pruning_reads_the_payload_date_of_old_encrypted_entries() {
    let identity = Key::generate();
    let recipient = identity.to_public();
    let history = vec![
        plain(1, 5, "old"),
        sealed_text(&recipient, 2, 5, ";;old secret"),
        sealed_text(&recipient, 3, 5, "3;500;refreshed"),
        plain(4, 500, "new"),
    ];
    let (kept, pruned) = prune_history(history, 100, Some(identity.as_str()), parse_text);
    assert_eq!(kept.iter().map(HistoryEntry::id).collect::<Vec<_>>(), vec![3, 4]);
    assert_eq!(pruned, vec![1, 2]);
}

#[test]
fn pruning_without_identity_keeps_encrypted_entries() {
    let identity = Key::generate();
    let history = vec![plain(1, 5, "old"), sealed_text(&identity.to_public(), 2, 5, ";;x")];
    let (kept, pruned) = prune_history(history, 100, None, parse_text);
    assert_eq!(kept.iter().map(HistoryEntry::id).collect::<Vec<_>>(), vec![2]);
    assert_eq!(pruned, vec![1]);
}

#[test]
fn appending_assigns_the_next_id() {
    let mut history = vec![plain(4, 1, "a")];
    let mut object = text_object(0, 9, "b");
    let hash = append_entry(&mut history, &mut object, &None, None, serialize_text).unwrap();
    assert_eq!(hash, Some(clipboard_history::crypto::content_hash(&object.content)));
    assert_eq!(object.id, 5);
    assert_eq!(history.len(), 2);
    assert_eq!(text_of(&history[1]), "b");
    assert_eq!(history[1].id(), 5);
}

#[test]
fn appending_a_repeat_does_nothing() {
    let mut history = vec![plain(1, 1, "same")];
    let mut object = text_object(0, 2, "same");
    assert_eq!(append_entry(&mut history, &mut object, &None, None, serialize_text), Ok(None));
    assert_eq!(history.len(), 1);
    assert_eq!(object.id, 0);
}

#[test]
fn appending_encrypts_to_the_recipient() {
    let identity = Key::generate();
    let recipient = identity.to_public();
    let mut history = Vec::new();
    let mut object = text_object(0, 9, "secret");
    append_entry(&mut history, &mut object, &None, Some(recipient.as_str()), serialize_text).unwrap();
    match &history[0] {
        HistoryEntry::Encrypted(r) => assert_eq!((r.id, r.date), (1, 9)),
        HistoryEntry::Plain(_) => panic!("stored in plain"),
    }
    let opened = decrypt_entries(history, &identity, parse_text).unwrap();
    assert_eq!(text_of(&opened[0]), "secret");
    assert_eq!(opened[0].id(), 1);
}

#[test]
fn appending_with_every_id_taken_fails() {
    let mut history = vec![plain(u32::MAX, 1, "a")];
    let mut object = text_object(0, 2, "b");
    assert_eq!(
        append_entry(&mut history, &mut object, &None, None, serialize_text),
        Err(AppError::Custom("History ID space exhausted. Clear some entries.".to_string()))
    );
    assert_eq!(history.len(), 1);
}

#[test]
fn capture_kind_follows_the_order_of_preference() {
    assert_eq!(capture_kind(true, true, true, true, true), Some(CaptureKind::Files));
    assert_eq!(capture_kind(false, true, true, false, false), Some(CaptureKind::Image));
    assert_eq!(capture_kind(false, false, true, true, true), Some(CaptureKind::Text));
    assert_eq!(capture_kind(false, false, false, true, true), Some(CaptureKind::Html));
    assert_eq!(capture_kind(false, false, false, false, true), Some(CaptureKind::Rtf));
    assert_eq!(capture_kind(false, false, false, false, false), None);
}

#[test]
fn stored_repairs_list_records_under_their_payload() {
    let identity = Key::generate();
    let vault = open_vault(&identity);
    let mut history = vec![plain(1, 10, "a"), sealed_text(&identity.to_public(), 3, 30, "7;70;b")];
    let mut cache = DecryptedPreviewCache::new();
    let (_, repairs) = load_previews(&history, &vault, &mut cache, parse_text).unwrap();
    clipboard_history::history::apply_repairs(&mut history, &repairs);
    assert_eq!((history[0].id(), history[0].date()), (1, 10));
    assert_eq!((history[1].id(), history[1].date()), (7, 70));
    let mut fresh = DecryptedPreviewCache::new();
    let (_, again) = load_previews(&history, &vault, &mut fresh, parse_text).unwrap();
    assert!(again.is_empty());
}
