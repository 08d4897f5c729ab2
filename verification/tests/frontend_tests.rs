use std::collections::HashSet;

use clipboard_history::frontend::{
    filter_history, format_full, format_kind, format_preview, sort_history, Shown, SortBy, SortOrder, FORMAT_CHIPS,
};
use clipboard_history::{CopiedObject, CopiedObjectPreview, ObjectContent, ObjectFormat, PreviewContent};

fn row(id: u32, date: u64, format: ObjectFormat) -> CopiedObjectPreview {
    CopiedObjectPreview { id, content_format: format, date, preview: PreviewContent::Text(String::new()), has_formatting: false }
}

fn ids(rows: &[CopiedObjectPreview]) -> Vec<u32> {
    rows.iter().map(|r| r.id).collect()
}

#[test]
fn kinds_of_formats() {
    assert_eq!(format_kind(&row(1, 0, ObjectFormat::Text)), "text");
    assert_eq!(format_kind(&row(1, 0, ObjectFormat::Rtf)), "rtf");
    assert_eq!(format_kind(&row(1, 0, ObjectFormat::Html)), "html");
    assert_eq!(format_kind(&row(1, 0, ObjectFormat::Image)), "image");
    assert_eq!(format_kind(&row(1, 0, ObjectFormat::Files)), "files");
    assert_eq!(format_kind(&row(1, 0, ObjectFormat::Other("x".into()))), "other");
    assert_eq!(FORMAT_CHIPS.len(), 6);
    assert_eq!(FORMAT_CHIPS[0], ("text", "Text"));
}

#[test]
fn sort_by_date_ascending_is_stable() {
    let rows = vec![row(1, 30, ObjectFormat::Text), row(2, 10, ObjectFormat::Text), row(3, 30, ObjectFormat::Html), row(4, 20, ObjectFormat::Text)];
    assert_eq!(ids(&sort_history(rows, SortBy::Date, SortOrder::Ascending)), vec![2, 4, 1, 3]);
}

#[test]
fn sort_by_date_descending_reverses() {
    let rows = vec![row(1, 30, ObjectFormat::Text), row(2, 10, ObjectFormat::Text), row(3, 30, ObjectFormat::Html)];
    assert_eq!(ids(&sort_history(rows, SortBy::Date, SortOrder::Descending)), vec![3, 1, 2]);
}

#[test]
fn sort_by_type_follows_declaration_then_name() {
    let rows = vec![
        row(1, 0, ObjectFormat::Other("b".into())),
        row(2, 0, ObjectFormat::Files),
        row(3, 0, ObjectFormat::Text),
        row(4, 0, ObjectFormat::Other("a".into())),
        row(5, 0, ObjectFormat::Html),
        row(6, 0, ObjectFormat::Text),
    ];
    assert_eq!(ids(&sort_history(rows, SortBy::Type, SortOrder::Ascending)), vec![3, 6, 5, 2, 4, 1]);
}

#[test]
fn sort_empty() {
    assert!(sort_history(vec![], SortBy::Type, SortOrder::Descending).is_empty());
}

#[test]
fn filter_by_kind_and_results() {
    let rows = vec![row(1, 0, ObjectFormat::Text), row(2, 0, ObjectFormat::Image), row(3, 0, ObjectFormat::Text)];
    assert_eq!(ids(&filter_history(rows.clone(), &vec![], &None)), vec![1, 2, 3]);
    assert_eq!(ids(&filter_history(rows.clone(), &vec!["text".to_string()], &None)), vec![1, 3]);
    let results: HashSet<u32> = [2, 3].into_iter().collect();
    assert_eq!(ids(&filter_history(rows.clone(), &vec![], &Some(results.clone()))), vec![2, 3]);
    assert_eq!(ids(&filter_history(rows, &vec!["text".to_string()], &Some(results))), vec![3]);
}

fn shown_preview(preview: PreviewContent) -> Shown {
    format_preview(&CopiedObjectPreview { id: 1, content_format: ObjectFormat::Text, date: 0, preview, has_formatting: false })
}

fn shown_full(content: ObjectContent) -> Shown {
    format_full(&CopiedObject {
        id: 1,
        content,
        content_format: ObjectFormat::Text,
        date: 0,
        thumbnail: None,
        formatted_content: None,
    })
}

#[test]
fn previews_are_shown_by_kind() {
    assert!(matches!(shown_preview(PreviewContent::Html("<b>x</b>".into())), Shown::Text(s) if s == "<b>x</b>"));
    assert!(matches!(shown_preview(PreviewContent::Image(vec![])), Shown::Label(s) if s == "[image]"));
    assert!(matches!(shown_preview(PreviewContent::Image(vec![1, 2, 3])), Shown::Image(s) if s == "data:image/png;base64,AQID"));
    assert!(matches!(shown_preview(PreviewContent::Other("custom".into(), 42)), Shown::Label(s) if s == "[custom (42 bytes)]"));
    assert!(matches!(shown_preview(PreviewContent::Files(vec!["/a".into(), "/b".into()])), Shown::Files(f) if f == vec!["/a".to_string(), "/b".to_string()]));
}

#[test]
fn full_payloads_are_shown_by_kind() {
    assert!(matches!(shown_full(ObjectContent::Rtf("{\\rtf}".into())), Shown::Text(s) if s == "{\\rtf}"));
    assert!(matches!(shown_full(ObjectContent::Image(vec![])), Shown::Label(s) if s == "[image]"));
    assert!(matches!(shown_full(ObjectContent::Image(b"hi".to_vec())), Shown::Image(s) if s == "data:image/png;base64,aGk="));
    assert!(matches!(shown_full(ObjectContent::Other("blob".into(), vec![0; 10])), Shown::Label(s) if s == "[blob (10 bytes)]"));
}
