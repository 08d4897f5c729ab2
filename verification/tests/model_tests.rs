use clipboard_history::model::truncate;
use clipboard_history::{
    AppError, AppSettings, CopiedObject, CopiedObjectPreview, ObjectContent, ObjectFormat, PreviewContent,
    RetentionUnit,
};

fn object(content: ObjectContent, format: ObjectFormat) -> CopiedObject {
    CopiedObject {
        id: 7,
        content,
        content_format: format,
        date: 1_700_000_000_000,
        thumbnail: None,
        formatted_content: None,
    }
}

#[test]
fn ms_per_unit_values() {
    assert_eq!(RetentionUnit::Minutes.ms_per_unit(), 60_000);
    assert_eq!(RetentionUnit::Hours.ms_per_unit(), 3_600_000);
    assert_eq!(RetentionUnit::Days.ms_per_unit(), 86_400_000);
}

#[test]
fn retention_unit_default_is_days() {
    assert_eq!(RetentionUnit::default(), RetentionUnit::Days);
}

#[test]
fn default_settings() {
    let s = AppSettings::default();
    assert_eq!(s.retention_amount, 0);
    assert_eq!(s.retention_unit, RetentionUnit::Days);
    assert_eq!(s.auto_lock_minutes, 5);
    assert!(s.encryption.is_none());
    assert!(!s.capture_paused);
}

#[test]
fn object_size_counts_utf8_bytes() {
    let o = object(ObjectContent::Text("héllo".to_string()), ObjectFormat::Text);
    assert_eq!(o.object_size(), 6);
}

#[test]
fn object_size_adds_thumbnail_and_formatted_content() {
    let mut o = object(ObjectContent::Image(vec![1, 2, 3, 4]), ObjectFormat::Image);
    o.thumbnail = Some(vec![9, 9]);
    o.formatted_content = Some("abc".to_string());
    assert_eq!(o.object_size(), 4 + 2 + 3);
    assert_eq!(o.checked_object_size(), Some(9));
}

#[test]
fn object_size_of_files_and_other() {
    let files = object(
        ObjectContent::Files(vec!["/tmp/a".to_string(), "/tmp/bc".to_string()]),
        ObjectFormat::Files,
    );
    assert_eq!(files.object_size(), 13);
    let other = object(
        ObjectContent::Other("image/x".to_string(), vec![0; 10]),
        ObjectFormat::Other("image/x".to_string()),
    );
    assert_eq!(other.object_size(), 17);
}

#[test]
fn preview_object_size() {
    let p = CopiedObjectPreview {
        id: 1,
        content_format: ObjectFormat::Other("x".to_string()),
        date: 0,
        preview: PreviewContent::Other("name".to_string(), 1000),
        has_formatting: false,
    };
    assert_eq!(p.object_size(), 4);
    assert_eq!(p.checked_object_size(), Some(4));
}

#[test]
fn truncate_keeps_short_text() {
    assert_eq!(truncate("short", 10), "short");
    assert_eq!(truncate("exact", 5), "exact");
}

#[test]
fn truncate_cuts_long_text_by_characters() {
    assert_eq!(truncate("abcdef", 3), "abc...");
    assert_eq!(truncate("ééééé", 2), "éé...");
    assert_eq!(truncate("abc", 0), "...");
}

#[test]
fn preview_of_long_text_is_truncated_to_200_chars() {
    let text = "x".repeat(250);
    let o = object(ObjectContent::Text(text), ObjectFormat::Text);
    let p = CopiedObjectPreview::from_full(&o);
    assert_eq!(p.id, 7);
    assert_eq!(p.date, 1_700_000_000_000);
    assert_eq!(p.preview, PreviewContent::Text(format!("{}...", "x".repeat(200))));
    assert!(!p.has_formatting);
}

#[test]
fn preview_of_html_with_formatting() {
    let mut o = object(ObjectContent::Html("<b>hi</b>".to_string()), ObjectFormat::Html);
    o.formatted_content = Some("<b>hi</b>".to_string());
    let p = CopiedObjectPreview::from_full(&o);
    assert_eq!(p.preview, PreviewContent::Html("<b>hi</b>".to_string()));
    assert_eq!(p.content_format, ObjectFormat::Html);
    assert!(p.has_formatting);
}

#[test]
fn preview_of_image_uses_thumbnail() {
    let mut o = object(ObjectContent::Image(vec![1, 2, 3]), ObjectFormat::Image);
    assert_eq!(CopiedObjectPreview::from_full(&o).preview, PreviewContent::Image(vec![]));
    o.thumbnail = Some(vec![5, 6]);
    assert_eq!(CopiedObjectPreview::from_full(&o).preview, PreviewContent::Image(vec![5, 6]));
}

#[test]
fn preview_of_files_and_other() {
    let f = object(ObjectContent::Files(vec!["/a".to_string()]), ObjectFormat::Files);
    assert_eq!(CopiedObjectPreview::from_full(&f).preview, PreviewContent::Files(vec!["/a".to_string()]));
    let o = object(ObjectContent::Other("fmt".to_string(), vec![0; 12]), ObjectFormat::Other("fmt".to_string()));
    assert_eq!(CopiedObjectPreview::from_full(&o).preview, PreviewContent::Other("fmt".to_string(), 12));
}

#[test]
fn preview_of_rtf_is_truncated() {
    let o = object(ObjectContent::Rtf("r".repeat(201)), ObjectFormat::Rtf);
    let p = CopiedObjectPreview::from_full(&o);
    assert_eq!(p.preview, PreviewContent::Rtf(format!("{}...", "r".repeat(200))));
}

#[test]
fn zeroize_object_empties_payloads_keeps_id() {
    let mut o = object(ObjectContent::Other("name".to_string(), vec![1, 2]), ObjectFormat::Html);
    o.thumbnail = Some(vec![1]);
    o.formatted_content = Some("f".to_string());
    o.zeroize();
    assert_eq!(o.content, ObjectContent::Other(String::new(), vec![]));
    assert_eq!(o.thumbnail, Some(vec![]));
    assert_eq!(o.formatted_content, Some(String::new()));
    assert_eq!(o.id, 7);
    assert_eq!(o.content_format, ObjectFormat::Html);
}

#[test]
fn zeroize_files_content() {
    let mut c = ObjectContent::Files(vec!["a".to_string(), "b".to_string()]);
    c.zeroize();
    assert_eq!(c, ObjectContent::Files(vec![]));
}

#[test]
fn zeroize_preview_resets_every_field() {
    let mut p = CopiedObjectPreview {
        id: 3,
        content_format: ObjectFormat::Text,
        date: 99,
        preview: PreviewContent::Other("n".to_string(), 5),
        has_formatting: true,
    };
    p.zeroize();
    assert_eq!(p.id, 0);
    assert_eq!(p.date, 0);
    assert_eq!(p.content_format, ObjectFormat::Other(String::new()));
    assert_eq!(p.preview, PreviewContent::Other(String::new(), 0));
    assert!(!p.has_formatting);
}

#[test]
fn clone_copies_object() {
    let mut o = object(ObjectContent::Files(vec!["a".to_string()]), ObjectFormat::Files);
    o.thumbnail = Some(vec![1, 2]);
    let c = o.clone();
    assert_eq!(c, o);
}

#[test]
fn error_messages_match_user_text() {
    assert_eq!(
        AppError::Custom("boom".to_string()).message(),
        "An error occurred: boom"
    );
    assert_eq!(
        AppError::TauriStore("x".to_string()).message(),
        "An error occurred with the Tauri Store plugin: x"
    );
    assert_eq!(
        AppError::ClipboardRs("y".to_string()).message(),
        "An error occurred with clipboard-rs: y"
    );
    assert_eq!(
        AppError::SerdeJson("z".to_string()).message(),
        "An error occurred with serde_json: z"
    );
    assert_eq!(
        AppError::Locked.message(),
        "History is locked. Enter the password to unlock."
    );
    assert_eq!(AppError::BadPassword.message(), "Incorrect password.");
    assert_eq!(
        AppError::Crypto("bad".to_string()).message(),
        "A cryptographic error occurred: bad"
    );
    assert_eq!(
        AppError::TauriState.message(),
        "An error occurred with Tauri's managed state system"
    );
    assert_eq!(
        AppError::EncryptionReconfigured.message(),
        "Encryption configuration changed during an operation"
    );
}
