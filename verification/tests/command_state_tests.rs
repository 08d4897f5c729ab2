use clipboard_history::cache::{DecryptedCache, DecryptedPreviewCache};
use clipboard_history::clipboard::{appended_new, new_entry_visible, next_capture_action, CaptureAction, CaptureEvent};
use clipboard_history::crypto::{content_hash, Vault};
use clipboard_history::session::{begin_clear_history, begin_delete_entry, lock_vault, reset_caches};
use clipboard_history::{AppError, CopiedObject, CopiedObjectPreview, ObjectContent, ObjectFormat, PreviewContent};

fn text(id: u32, s: &str) -> CopiedObject {
    CopiedObject {
        id,
        content: ObjectContent::Text(s.to_string()),
        content_format: ObjectFormat::Text,
        date: id as u64,
        thumbnail: None,
        formatted_content: None,
    }
}

fn preview(id: u32) -> CopiedObjectPreview {
    CopiedObjectPreview {
        id,
        content_format: ObjectFormat::Text,
        date: id as u64,
        preview: PreviewContent::Text("p".to_string()),
        has_formatting: false,
    }
}

fn filled() -> (DecryptedCache, DecryptedPreviewCache, Option<String>) {
    let mut c = DecryptedCache::new();
    c.insert(1, text(1, "one"));
    c.insert(2, text(2, "two"));
    let mut p = DecryptedPreviewCache::new();
    p.insert(1, preview(1));
    p.insert(2, preview(2));
    (c, p, Some("hash".to_string()))
}

fn locked() -> Vault {
    let mut v = Vault::new();
    v.recipient = Some("age1recipient".to_string());
    v
}

#[test]
fn clear_forgets_caches_even_when_locked() {
    let (mut c, mut p, mut h) = filled();
    assert_eq!(begin_clear_history(&mut c, &mut p, &mut h, &locked()), Err(AppError::Locked));
    assert_eq!(c.get(1), None);
    assert_eq!(p.get(2), None);
    assert_eq!(h, None);
}

#[test]
fn clear_goes_on_when_open_or_unencrypted() {
    let (mut c, mut p, mut h) = filled();
    assert_eq!(begin_clear_history(&mut c, &mut p, &mut h, &Vault::new()), Ok(()));
    let mut open = locked();
    open.identity = Some("AGE-SECRET-KEY-1".to_string());
    assert_eq!(begin_clear_history(&mut c, &mut p, &mut h, &open), Ok(()));
    assert_eq!(c.get(2), None);
}

#[test]
fn delete_forgets_only_that_entry() {
    let (mut c, mut p, mut h) = filled();
    assert_eq!(begin_delete_entry(&mut c, &mut p, &mut h, &locked(), 1), Err(AppError::Locked));
    assert_eq!(c.get(1), None);
    assert_eq!(c.get(2), Some(text(2, "two")));
    assert_eq!(p.get(1), None);
    assert_eq!(p.get(2), Some(preview(2)));
    assert_eq!(h, None);
    let (mut c, mut p, mut h) = filled();
    assert_eq!(begin_delete_entry(&mut c, &mut p, &mut h, &Vault::new(), 2), Ok(()));
    assert_eq!(c.get(1), Some(text(1, "one")));
}

#[test]
fn reset_forgets_everything() {
    let (mut c, mut p, mut h) = filled();
    reset_caches(&mut c, &mut p, &mut h);
    assert_eq!(c.get(1), None);
    assert_eq!(p.get(1), None);
    assert_eq!(h, None);
}

#[test]
fn lock_drops_identity_keeps_recipient() {
    let (mut c, mut p, _) = filled();
    let mut v = locked();
    v.identity = Some("AGE-SECRET-KEY-1".to_string());
    lock_vault(&mut v, &mut c, &mut p);
    assert_eq!(v.identity, None);
    assert_eq!(v.recipient, Some("age1recipient".to_string()));
    assert!(v.is_locked());
    assert_eq!(c.get(1), None);
    assert_eq!(p.get(1), None);
}

#[test]
fn capture_steps_in_order() {
    assert_eq!(next_capture_action(&CaptureEvent::Changed { paused: true }), CaptureAction::Done);
    assert_eq!(next_capture_action(&CaptureEvent::Changed { paused: false }), CaptureAction::ReadClipboard);
    assert_eq!(next_capture_action(&CaptureEvent::Read { captured: false }), CaptureAction::Done);
    assert_eq!(next_capture_action(&CaptureEvent::Read { captured: true }), CaptureAction::AppendToHistory);
    assert_eq!(next_capture_action(&CaptureEvent::Appended { added: false }), CaptureAction::Done);
    assert_eq!(next_capture_action(&CaptureEvent::Appended { added: true }), CaptureAction::PruneHistory);
    assert_eq!(next_capture_action(&CaptureEvent::Pruned { vault_open: false }), CaptureAction::Done);
    assert_eq!(next_capture_action(&CaptureEvent::Pruned { vault_open: true }), CaptureAction::ShowPreview);
}

#[test]
fn append_result_and_visibility() {
    assert!(appended_new(&Ok(Some(3))));
    assert!(!appended_new(&Ok(None)));
    assert!(!appended_new(&Err(AppError::Locked)));
    assert!(new_entry_visible(None));
    assert!(new_entry_visible(Some(&Vault::new())));
    assert!(!new_entry_visible(Some(&locked())));
}

#[test]
fn fingerprint_input_separates_paths_and_names() {
    let two = content_hash(&ObjectContent::Files(vec!["a".to_string(), "b".to_string()]));
    let one = content_hash(&ObjectContent::Files(vec!["ab".to_string()]));
    assert_ne!(two, one);
    let a = content_hash(&ObjectContent::Other("x".to_string(), vec![b'y']));
    let b = content_hash(&ObjectContent::Other("xy".to_string(), vec![]));
    assert_ne!(a, b);
    assert_ne!(
        content_hash(&ObjectContent::Image(vec![b'a'])),
        content_hash(&ObjectContent::Other(String::new(), vec![b'a']))
    );
}
