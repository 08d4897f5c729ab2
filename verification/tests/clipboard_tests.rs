use clipboard_history::clipboard::{clipboard_write, text_format, ClipboardWrite};
use clipboard_history::{ObjectContent, ObjectFormat};

#[test]
fn formatted_html_is_written_as_html() {
    let w = clipboard_write(&ObjectContent::Text("t".to_string()), &ObjectFormat::Html, &Some("<i>t</i>".to_string()), true);
    assert!(matches!(w, ClipboardWrite::Html(s) if s == "<i>t</i>"));
}

#[test]
fn formatted_rtf_is_written_as_rich_text() {
    let w = clipboard_write(&ObjectContent::Text("t".to_string()), &ObjectFormat::Rtf, &Some("{r}".to_string()), true);
    assert!(matches!(w, ClipboardWrite::RichText(s) if s == "{r}"));
}

#[test]
fn plain_request_writes_payload() {
    let w = clipboard_write(&ObjectContent::Text("t".to_string()), &ObjectFormat::Html, &Some("<i>t</i>".to_string()), false);
    assert!(matches!(w, ClipboardWrite::Text(s) if s == "t"));
    let w = clipboard_write(&ObjectContent::Text("t".to_string()), &ObjectFormat::Text, &Some("x".to_string()), true);
    assert!(matches!(w, ClipboardWrite::Text(s) if s == "t"));
}

#[test]
fn payload_kinds_map_to_writes() {
    assert!(matches!(clipboard_write(&ObjectContent::Rtf("r".into()), &ObjectFormat::Rtf, &None, true), ClipboardWrite::RichText(_)));
    assert!(matches!(clipboard_write(&ObjectContent::Html("h".into()), &ObjectFormat::Html, &None, true), ClipboardWrite::Html(_)));
    assert!(matches!(clipboard_write(&ObjectContent::Image(vec![1]), &ObjectFormat::Image, &None, false), ClipboardWrite::Image(b) if b == vec![1]));
    assert!(matches!(clipboard_write(&ObjectContent::Files(vec!["/a".into()]), &ObjectFormat::Files, &None, false), ClipboardWrite::Files(f) if f.len() == 1));
    assert!(matches!(
        clipboard_write(&ObjectContent::Other("n".into(), vec![2]), &ObjectFormat::Other("n".into()), &None, false),
        ClipboardWrite::Buffer(n, d) if n == "n" && d == vec![2]
    ));
}

#[test]
fn text_format_prefers_html_then_rtf() {
    assert_eq!(text_format(Some("<b>".into()), Some("{r}".into())), (ObjectFormat::Html, Some("<b>".to_string())));
    assert_eq!(text_format(Some(String::new()), Some("{r}".into())), (ObjectFormat::Rtf, Some("{r}".to_string())));
    assert_eq!(text_format(None, Some(String::new())), (ObjectFormat::Text, None));
    assert_eq!(text_format(None, None), (ObjectFormat::Text, None));
}
