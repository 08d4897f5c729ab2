//! What is written to, and recorded from, the system clipboard.
use vstd::prelude::*;

use crate::crypto::Vault;
use crate::model::{
    AppError, opt_string_view, strings_view, ContentView, FormatView, ObjectContent, ObjectFormat,
};

verus! {

/// One write to the system clipboard.
#[derive(Debug)]
pub enum ClipboardWrite {
    Text(String),
    RichText(String),
    Html(String),
    Image(Vec<u8>),
    Files(Vec<String>),
    Buffer(String, Vec<u8>),
}

/// Mathematical value of a [`ClipboardWrite`].
pub enum ClipboardWriteView {
    Text(Seq<char>),
    RichText(Seq<char>),
    Html(Seq<char>),
    Image(Seq<u8>),
    Files(Seq<Seq<char>>),
    Buffer(Seq<char>, Seq<u8>),
}

impl View for ClipboardWrite {
    type V = ClipboardWriteView;

    open spec fn view(&self) -> ClipboardWriteView {
        match self {
            ClipboardWrite::Text(s) => ClipboardWriteView::Text(s@),
            ClipboardWrite::RichText(s) => ClipboardWriteView::RichText(s@),
            ClipboardWrite::Html(s) => ClipboardWriteView::Html(s@),
            ClipboardWrite::Image(b) => ClipboardWriteView::Image(b@),
            ClipboardWrite::Files(f) => ClipboardWriteView::Files(strings_view(f@)),
            ClipboardWrite::Buffer(n, b) => ClipboardWriteView::Buffer(n@, b@),
        }
    }
}

/// The write that puts an entry back on the clipboard: its formatted content
/// as HTML or RTF when that is asked for and the entry has it, its payload
/// otherwise.
pub open spec fn clipboard_write_spec(
    content: ContentView,
    format: FormatView,
    formatted_content: Option<Seq<char>>,
    formatted: bool,
) -> ClipboardWriteView {
    if formatted && formatted_content is Some && format is Html {
        ClipboardWriteView::Html(formatted_content.unwrap())
    } else if formatted && formatted_content is Some && format is Rtf {
        ClipboardWriteView::RichText(formatted_content.unwrap())
    } else {
        match content {
            ContentView::Text(s) => ClipboardWriteView::Text(s),
            ContentView::Rtf(s) => ClipboardWriteView::RichText(s),
            ContentView::Html(s) => ClipboardWriteView::Html(s),
            ContentView::Image(b) => ClipboardWriteView::Image(b),
            ContentView::Files(f) => ClipboardWriteView::Files(f),
            ContentView::Other(n, b) => ClipboardWriteView::Buffer(n, b),
        }
    }
}

/// The write that puts an entry back on the clipboard.
pub fn clipboard_write(
    content: &ObjectContent,
    content_format: &ObjectFormat,
    formatted_content: &Option<String>,
    formatted: bool,
) -> (r: ClipboardWrite)
    ensures
        r@ == clipboard_write_spec(content@, content_format@, opt_string_view(*formatted_content), formatted),
{
    if formatted {
        if let Some(rich) = formatted_content {
            match content_format {
                ObjectFormat::Html => {
                    return ClipboardWrite::Html(rich.clone());
                },
                ObjectFormat::Rtf => {
                    return ClipboardWrite::RichText(rich.clone());
                },
                _ => {},
            }
        }
    }
    match content.clone() {
        ObjectContent::Text(s) => ClipboardWrite::Text(s),
        ObjectContent::Rtf(s) => ClipboardWrite::RichText(s),
        ObjectContent::Html(s) => ClipboardWrite::Html(s),
        ObjectContent::Image(bytes) => ClipboardWrite::Image(bytes),
        ObjectContent::Files(files) => ClipboardWrite::Files(files),
        ObjectContent::Other(name, data) => ClipboardWrite::Buffer(name, data),
    }
}

/// The format recorded for copied text, with its formatted form: HTML when
/// the clipboard offered non-empty HTML, else RTF when it offered non-empty
/// RTF, else plain text.
pub open spec fn text_format_spec(html: Option<Seq<char>>, rtf: Option<Seq<char>>) -> (FormatView, Option<Seq<char>>) {
    if html matches Some(h) && h.len() > 0 {
        (FormatView::Html, html)
    } else if rtf matches Some(r) && r.len() > 0 {
        (FormatView::Rtf, rtf)
    } else {
        (FormatView::Text, None)
    }
}

/// Non-empty HTML is always recorded, as HTML, whatever RTF came with it;
/// non-empty RTF is recorded only when there is no non-empty HTML; with
/// neither the text is recorded plain, with no formatted form.
pub proof fn lemma_text_format_choice(html: Option<Seq<char>>, rtf: Option<Seq<char>>)
    ensures
        html matches Some(h) && h.len() > 0 ==> text_format_spec(html, rtf) == (FormatView::Html, html),
        !(html matches Some(h) && h.len() > 0) && (rtf matches Some(r) && r.len() > 0) ==> text_format_spec(html, rtf)
            == (FormatView::Rtf, rtf),
        !(html matches Some(h) && h.len() > 0) && !(rtf matches Some(r) && r.len() > 0) ==> text_format_spec(
            html,
            rtf,
        ) == (FormatView::Text, None::<Seq<char>>),
        text_format_spec(html, rtf).1 is Some ==> text_format_spec(html, rtf).1 == html || text_format_spec(
            html,
            rtf,
        ).1 == rtf,
{
}

/// The format recorded for copied text, given the HTML and RTF forms the
/// clipboard offered alongside it.
pub fn text_format(html: Option<String>, rtf: Option<String>) -> (r: (ObjectFormat, Option<String>))
    ensures
        (r.0@, opt_string_view(r.1)) == text_format_spec(opt_string_view(html), opt_string_view(rtf)),
{
    if let Some(h) = html {
        if !h.as_str().is_empty() {
            return (ObjectFormat::Html, Some(h));
        }
    }
    if let Some(r) = rtf {
        if !r.as_str().is_empty() {
            return (ObjectFormat::Rtf, Some(r));
        }
    }
    (ObjectFormat::Text, None)
}

/// The kinds of content that a clipboard change is checked for.
#[derive(Debug, PartialEq, Eq, Structural)]
pub enum CaptureKind {
    Files,
    Image,
    Text,
    Html,
    Rtf,
}

/// What a clipboard change is recorded as, given the kinds of content the
/// clipboard offers: the first of files, image, text, HTML and RTF that it
/// offers, or nothing.
pub fn capture_kind(files: bool, image: bool, text: bool, html: bool, rtf: bool) -> (r: Option<CaptureKind>)
    ensures
        r == if files {
            Some(CaptureKind::Files)
        } else if image {
            Some(CaptureKind::Image)
        } else if text {
            Some(CaptureKind::Text)
        } else if html {
            Some(CaptureKind::Html)
        } else if rtf {
            Some(CaptureKind::Rtf)
        } else {
            None
        },
{
    if files {
        Some(CaptureKind::Files)
    } else if image {
        Some(CaptureKind::Image)
    } else if text {
        Some(CaptureKind::Text)
    } else if html {
        Some(CaptureKind::Html)
    } else if rtf {
        Some(CaptureKind::Rtf)
    } else {
        None
    }
}


/// What the clipboard watcher has learned at a step of recording a change.
#[derive(Debug, PartialEq, Eq, Structural)]
pub enum CaptureEvent {
    /// The clipboard changed; whether capturing is paused.
    Changed { paused: bool },
    /// The clipboard was read; whether it held something that can be recorded.
    Read { captured: bool },
    /// The object was offered to the history; whether it became a new entry.
    Appended { added: bool },
    /// Expired entries were pruned, or pruning failed and was reported;
    /// whether the vault is open or encryption is off.
    Pruned { vault_open: bool },
}

/// What the clipboard watcher does next.
#[derive(Debug, PartialEq, Eq, Structural)]
pub enum CaptureAction {
    ReadClipboard,
    AppendToHistory,
    PruneHistory,
    ShowPreview,
    Done,
}

/// The step after `event`: each step goes on only when the one before
/// succeeded, and a preview of the new entry is shown only where the vault
/// does not hide it.
pub open spec fn capture_step(event: CaptureEvent) -> CaptureAction {
    match event {
        CaptureEvent::Changed { paused } => if paused {
            CaptureAction::Done
        } else {
            CaptureAction::ReadClipboard
        },
        CaptureEvent::Read { captured } => if captured {
            CaptureAction::AppendToHistory
        } else {
            CaptureAction::Done
        },
        CaptureEvent::Appended { added } => if added {
            CaptureAction::PruneHistory
        } else {
            CaptureAction::Done
        },
        CaptureEvent::Pruned { vault_open } => if vault_open {
            CaptureAction::ShowPreview
        } else {
            CaptureAction::Done
        },
    }
}

/// Decides the clipboard watcher's next step.
pub fn next_capture_action(event: &CaptureEvent) -> (r: CaptureAction)
    ensures
        r == capture_step(*event),
{
    match event {
        CaptureEvent::Changed { paused } => if *paused {
            CaptureAction::Done
        } else {
            CaptureAction::ReadClipboard
        },
        CaptureEvent::Read { captured } => if *captured {
            CaptureAction::AppendToHistory
        } else {
            CaptureAction::Done
        },
        CaptureEvent::Appended { added } => if *added {
            CaptureAction::PruneHistory
        } else {
            CaptureAction::Done
        },
        CaptureEvent::Pruned { vault_open } => if *vault_open {
            CaptureAction::ShowPreview
        } else {
            CaptureAction::Done
        },
    }
}

/// Whether an append ended in a new entry: it succeeded and returned the
/// new entry's id.
pub fn appended_new(result: &Result<Option<u32>, AppError>) -> (r: bool)
    ensures
        r == (result matches Ok(Some(_))),
{
    match result {
        Ok(Some(_)) => true,
        _ => false,
    }
}

/// Whether a new entry may be shown: there is no vault, or encryption is
/// off, or the vault holds the identity.
pub fn new_entry_visible(vault: Option<&Vault>) -> (r: bool)
    ensures
        r == match vault {
            Some(v) => v.recipient is None || v.identity is Some,
            None => true,
        },
{
    match vault {
        Some(v) => !v.is_locked(),
        None => true,
    }
}

} // verus!
