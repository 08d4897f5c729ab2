//! The data model shared by the backend and the frontend: copied objects,
//! their previews, the settings and the error type.
use vstd::prelude::*;
use vstd::utf8::encode_utf8;

use crate::constants::TEXT_PREVIEW_MAX_CHARS;

verus! {

/// Errors reported to the user interface.
#[derive(Clone, Debug, PartialEq)]
pub enum AppError {
    Custom(String),
    TauriStore(String),
    ClipboardRs(String),
    SerdeJson(String),
    Locked,
    BadPassword,
    Crypto(String),
    TauriState,
    EncryptionReconfigured,
}

/// One object captured from the clipboard, with its full content.
#[derive(Debug, PartialEq, Eq, Hash)]
pub struct CopiedObject {
    pub id: u32,
    pub content: ObjectContent,
    pub content_format: ObjectFormat,
    pub date: u64,
    pub thumbnail: Option<Vec<u8>>,
    pub formatted_content: Option<String>,
}

/// The payload of a copied object.
#[derive(Debug, PartialEq, Eq, Hash)]
pub enum ObjectContent {
    Text(String),
    Rtf(String),
    Html(String),
    Image(Vec<u8>),
    Files(Vec<String>),
    Other(String, Vec<u8>),
}

/// The format under which an object was copied.
#[derive(Debug, PartialEq, Eq, Hash)]
pub enum ObjectFormat {
    Text,
    Rtf,
    Html,
    Image,
    Files,
    Other(String),
}

/// What the history table shows of a copied object.
#[derive(Debug, PartialEq)]
pub struct CopiedObjectPreview {
    pub id: u32,
    pub content_format: ObjectFormat,
    pub date: u64,
    pub preview: PreviewContent,
    pub has_formatting: bool,
}

/// The shortened payload of a preview.
#[derive(Debug, PartialEq)]
pub enum PreviewContent {
    Text(String),
    Rtf(String),
    Html(String),
    Image(Vec<u8>),
    Files(Vec<String>),
    Other(String, u64),
}

/// The unit in which the retention period is counted.
#[derive(Clone, Copy, Debug, PartialEq, Eq, Structural)]
pub enum RetentionUnit {
    Minutes,
    Hours,
    Days,
}

/// The user's settings.
#[derive(Debug, PartialEq)]
pub struct AppSettings {
    pub retention_amount: u64,
    pub retention_unit: RetentionUnit,
    pub auto_lock_minutes: u64,
    pub encryption: Option<EncryptionConfig>,
    pub capture_paused: bool,
}

/// The stored key material of an encrypted history.
#[derive(Debug, PartialEq)]
pub struct EncryptionConfig {
    pub recipient: String,
    pub encrypted_identity: String,
}

/// Whether encryption is on, and whether the vault is open.
#[derive(Clone, Copy, Debug, PartialEq, Eq, Structural)]
pub struct EncryptionStatus {
    pub enabled: bool,
    pub unlocked: bool,
}

/// Mathematical value of an [`ObjectContent`].
pub enum ContentView {
    Text(Seq<char>),
    Rtf(Seq<char>),
    Html(Seq<char>),
    Image(Seq<u8>),
    Files(Seq<Seq<char>>),
    Other(Seq<char>, Seq<u8>),
}

/// Mathematical value of an [`ObjectFormat`].
pub enum FormatView {
    Text,
    Rtf,
    Html,
    Image,
    Files,
    Other(Seq<char>),
}

/// Mathematical value of a [`CopiedObject`].
pub struct ObjectView {
    pub id: u32,
    pub content: ContentView,
    pub content_format: FormatView,
    pub date: u64,
    pub thumbnail: Option<Seq<u8>>,
    pub formatted_content: Option<Seq<char>>,
}

/// Mathematical value of a [`PreviewContent`].
pub enum PreviewView {
    Text(Seq<char>),
    Rtf(Seq<char>),
    Html(Seq<char>),
    Image(Seq<u8>),
    Files(Seq<Seq<char>>),
    Other(Seq<char>, u64),
}

/// Mathematical value of a [`CopiedObjectPreview`].
pub struct ObjectPreviewView {
    pub id: u32,
    pub content_format: FormatView,
    pub date: u64,
    pub preview: PreviewView,
    pub has_formatting: bool,
}

/// The characters of each string of a list.
pub open spec fn strings_view(files: Seq<String>) -> Seq<Seq<char>> {
    files.map_values(|f: String| f@)
}

/// Optional bytes, by value.
pub open spec fn opt_bytes_view(o: Option<Vec<u8>>) -> Option<Seq<u8>> {
    match o {
        Some(v) => Some(v@),
        None => None,
    }
}

/// Optional string, by value.
pub open spec fn opt_string_view(o: Option<String>) -> Option<Seq<char>> {
    match o {
        Some(v) => Some(v@),
        None => None,
    }
}

impl View for ObjectContent {
    type V = ContentView;

    open spec fn view(&self) -> ContentView {
        match self {
            ObjectContent::Text(s) => ContentView::Text(s@),
            ObjectContent::Rtf(s) => ContentView::Rtf(s@),
            ObjectContent::Html(s) => ContentView::Html(s@),
            ObjectContent::Image(b) => ContentView::Image(b@),
            ObjectContent::Files(f) => ContentView::Files(strings_view(f@)),
            ObjectContent::Other(n, b) => ContentView::Other(n@, b@),
        }
    }
}

impl View for ObjectFormat {
    type V = FormatView;

    open spec fn view(&self) -> FormatView {
        match self {
            ObjectFormat::Text => FormatView::Text,
            ObjectFormat::Rtf => FormatView::Rtf,
            ObjectFormat::Html => FormatView::Html,
            ObjectFormat::Image => FormatView::Image,
            ObjectFormat::Files => FormatView::Files,
            ObjectFormat::Other(n) => FormatView::Other(n@),
        }
    }
}

impl View for CopiedObject {
    type V = ObjectView;

    open spec fn view(&self) -> ObjectView {
        ObjectView {
            id: self.id,
            content: self.content@,
            content_format: self.content_format@,
            date: self.date,
            thumbnail: opt_bytes_view(self.thumbnail),
            formatted_content: opt_string_view(self.formatted_content),
        }
    }
}

impl View for PreviewContent {
    type V = PreviewView;

    open spec fn view(&self) -> PreviewView {
        match self {
            PreviewContent::Text(s) => PreviewView::Text(s@),
            PreviewContent::Rtf(s) => PreviewView::Rtf(s@),
            PreviewContent::Html(s) => PreviewView::Html(s@),
            PreviewContent::Image(b) => PreviewView::Image(b@),
            PreviewContent::Files(f) => PreviewView::Files(strings_view(f@)),
            PreviewContent::Other(n, len) => PreviewView::Other(n@, *len),
        }
    }
}

impl View for CopiedObjectPreview {
    type V = ObjectPreviewView;

    open spec fn view(&self) -> ObjectPreviewView {
        ObjectPreviewView {
            id: self.id,
            content_format: self.content_format@,
            date: self.date,
            preview: self.preview@,
            has_formatting: self.has_formatting,
        }
    }
}

/// Number of bytes of the UTF-8 encoding of `s`, as `str::len` reports it.
pub open spec fn utf8_len(s: Seq<char>) -> nat {
    encode_utf8(s).len()
}

/// Sum of the UTF-8 lengths of a list of strings.
pub open spec fn utf8_len_sum(files: Seq<Seq<char>>) -> nat
    decreases files.len(),
{
    if files.len() == 0 {
        0
    } else {
        utf8_len_sum(files.drop_last()) + utf8_len(files.last())
    }
}

/// Size in bytes of the payload of an object.
pub open spec fn content_size(content: ContentView) -> nat {
    match content {
        ContentView::Text(s) => utf8_len(s),
        ContentView::Rtf(s) => utf8_len(s),
        ContentView::Html(s) => utf8_len(s),
        ContentView::Image(bytes) => bytes.len(),
        ContentView::Files(files) => utf8_len_sum(files),
        ContentView::Other(name, bytes) => utf8_len(name) + bytes.len(),
    }
}

/// Size in bytes that a copied object accounts for in a cache.
pub open spec fn object_size_spec(object: ObjectView) -> nat {
    content_size(object.content) + match object.thumbnail {
        Some(t) => t.len(),
        None => 0,
    } + match object.formatted_content {
        Some(f) => utf8_len(f),
        None => 0,
    }
}

/// Size in bytes that a preview accounts for in a cache.
pub open spec fn preview_size_spec(preview: ObjectPreviewView) -> nat {
    match preview.preview {
        PreviewView::Text(s) => utf8_len(s),
        PreviewView::Rtf(s) => utf8_len(s),
        PreviewView::Html(s) => utf8_len(s),
        PreviewView::Image(bytes) => bytes.len(),
        PreviewView::Files(files) => utf8_len_sum(files),
        PreviewView::Other(name, _) => utf8_len(name),
    }
}

/// Milliseconds in one unit of retention time.
pub open spec fn ms_per_unit_spec(unit: RetentionUnit) -> u64 {
    match unit {
        RetentionUnit::Minutes => 60_000,
        RetentionUnit::Hours => 3_600_000,
        RetentionUnit::Days => 86_400_000,
    }
}

/// Byte length of a string, as `str::len` reports it.
fn string_byte_len(s: &String) -> (n: usize)
    ensures
        n == utf8_len(s@),
{
    s.as_str().as_bytes().len()
}

/// Sum of the byte lengths of `files`; `None` when it does not fit in `usize`.
fn files_byte_len(files: &Vec<String>) -> (n: usize)
    requires
        utf8_len_sum(strings_view(files@)) <= usize::MAX,
    ensures
        n == utf8_len_sum(strings_view(files@)),
{
    let mut total: usize = 0;
    let mut i: usize = 0;
    while i < files.len()
        invariant
            i <= files.len(),
            total == utf8_len_sum(strings_view(files@.subrange(0, i as int))),
            utf8_len_sum(strings_view(files@)) <= usize::MAX,
        decreases files.len() - i,
    {
        proof {
            let fv = strings_view(files@);
            lemma_utf8_len_sum_prefix_mono(fv, i as int + 1);
            assert(fv.subrange(0, i as int + 1).drop_last() =~= fv.subrange(0, i as int));
            assert(strings_view(files@.subrange(0, i as int + 1)) =~= fv.subrange(0, i as int + 1));
            assert(strings_view(files@.subrange(0, i as int)) =~= fv.subrange(0, i as int));
        }
        let n: usize = string_byte_len(&files[i]);
        total = total + n;
        i = i + 1;
    }
    proof {
        assert(files@.subrange(0, files@.len() as int) =~= files@);
    }
    total
}

/// The sum over a prefix never exceeds the sum over the whole list.
proof fn lemma_utf8_len_sum_prefix_mono(files: Seq<Seq<char>>, k: int)
    requires
        0 <= k <= files.len(),
    ensures
        utf8_len_sum(files.subrange(0, k)) <= utf8_len_sum(files),
    decreases files.len() - k,
{
    if k < files.len() {
        lemma_utf8_len_sum_prefix_mono(files, k + 1);
        assert(files.subrange(0, k + 1).drop_last() =~= files.subrange(0, k));
    } else {
        assert(files.subrange(0, k) =~= files);
    }
}

impl RetentionUnit {
    /// Milliseconds in one unit.
    pub fn ms_per_unit(self) -> (ms: u64)
        ensures
            ms == ms_per_unit_spec(self),
    {
        match self {
            RetentionUnit::Minutes => 60_000,
            RetentionUnit::Hours => 3_600_000,
            RetentionUnit::Days => 86_400_000,
        }
    }
}

impl CopiedObject {
    /// Size in bytes of the content, the thumbnail and the formatted content.
    pub fn object_size(&self) -> (n: usize)
        requires
            object_size_spec(self@) <= usize::MAX,
        ensures
            n == object_size_spec(self@),
    {
        let content_length: usize = match &self.content {
            ObjectContent::Text(s) => string_byte_len(s),
            ObjectContent::Rtf(s) => string_byte_len(s),
            ObjectContent::Html(s) => string_byte_len(s),
            ObjectContent::Image(bytes) => bytes.len(),
            ObjectContent::Files(files) => files_byte_len(files),
            ObjectContent::Other(name, bytes) => string_byte_len(name) + bytes.len(),
        };
        let thumbnail_length: usize = match &self.thumbnail {
            Some(t) => t.len(),
            None => 0,
        };
        let formatted_content_length: usize = match &self.formatted_content {
            Some(f) => string_byte_len(f),
            None => 0,
        };
        content_length + thumbnail_length + formatted_content_length
    }
}

impl CopiedObjectPreview {
    /// Size in bytes of the preview's payload.
    pub fn object_size(&self) -> (n: usize)
        requires
            preview_size_spec(self@) <= usize::MAX,
        ensures
            n == preview_size_spec(self@),
    {
        match &self.preview {
            PreviewContent::Text(s) => string_byte_len(s),
            PreviewContent::Rtf(s) => string_byte_len(s),
            PreviewContent::Html(s) => string_byte_len(s),
            PreviewContent::Image(bytes) => bytes.len(),
            PreviewContent::Files(files) => files_byte_len(files),
            PreviewContent::Other(name, _) => string_byte_len(name),
        }
    }
}

} // verus!

verus! {

/// A copy of a list of bytes.
fn copy_bytes(v: &Vec<u8>) -> (r: Vec<u8>)
    ensures
        r@ == v@,
{
    let r = v.clone();
    assert(r@ =~= v@);
    r
}

/// A copy of a list of strings.
pub(crate) fn copy_strings(v: &Vec<String>) -> (r: Vec<String>)
    ensures
        r@ == v@,
{
    let r = v.clone();
    assert(r@ =~= v@);
    r
}

impl Clone for ObjectFormat {
    fn clone(&self) -> (r: Self)
        ensures
            r@ == self@,
    {
        match self {
            ObjectFormat::Text => ObjectFormat::Text,
            ObjectFormat::Rtf => ObjectFormat::Rtf,
            ObjectFormat::Html => ObjectFormat::Html,
            ObjectFormat::Image => ObjectFormat::Image,
            ObjectFormat::Files => ObjectFormat::Files,
            ObjectFormat::Other(n) => ObjectFormat::Other(n.clone()),
        }
    }
}

impl Clone for ObjectContent {
    fn clone(&self) -> (r: Self)
        ensures
            r@ == self@,
    {
        match self {
            ObjectContent::Text(s) => ObjectContent::Text(s.clone()),
            ObjectContent::Rtf(s) => ObjectContent::Rtf(s.clone()),
            ObjectContent::Html(s) => ObjectContent::Html(s.clone()),
            ObjectContent::Image(b) => ObjectContent::Image(copy_bytes(b)),
            ObjectContent::Files(f) => ObjectContent::Files(copy_strings(f)),
            ObjectContent::Other(n, b) => ObjectContent::Other(n.clone(), copy_bytes(b)),
        }
    }
}

/// A copy of optional bytes.
fn copy_opt_bytes(o: &Option<Vec<u8>>) -> (r: Option<Vec<u8>>)
    ensures
        opt_bytes_view(r) == opt_bytes_view(*o),
{
    match o {
        Some(v) => Some(copy_bytes(v)),
        None => None,
    }
}

/// A copy of an optional string.
fn copy_opt_string(o: &Option<String>) -> (r: Option<String>)
    ensures
        opt_string_view(r) == opt_string_view(*o),
{
    match o {
        Some(v) => Some(v.clone()),
        None => None,
    }
}

impl Clone for CopiedObject {
    fn clone(&self) -> (r: Self)
        ensures
            r@ == self@,
    {
        CopiedObject {
            id: self.id,
            content: self.content.clone(),
            content_format: self.content_format.clone(),
            date: self.date,
            thumbnail: copy_opt_bytes(&self.thumbnail),
            formatted_content: copy_opt_string(&self.formatted_content),
        }
    }
}

impl Clone for PreviewContent {
    fn clone(&self) -> (r: Self)
        ensures
            r@ == self@,
    {
        match self {
            PreviewContent::Text(s) => PreviewContent::Text(s.clone()),
            PreviewContent::Rtf(s) => PreviewContent::Rtf(s.clone()),
            PreviewContent::Html(s) => PreviewContent::Html(s.clone()),
            PreviewContent::Image(b) => PreviewContent::Image(copy_bytes(b)),
            PreviewContent::Files(f) => PreviewContent::Files(copy_strings(f)),
            PreviewContent::Other(n, len) => PreviewContent::Other(n.clone(), *len),
        }
    }
}

impl Clone for CopiedObjectPreview {
    fn clone(&self) -> (r: Self)
        ensures
            r@ == self@,
    {
        CopiedObjectPreview {
            id: self.id,
            content_format: self.content_format.clone(),
            date: self.date,
            preview: self.preview.clone(),
            has_formatting: self.has_formatting,
        }
    }
}

} // verus!

verus! {

/// The characters that mark a shortened text.
pub open spec fn ellipsis() -> Seq<char> {
    seq!['.', '.', '.']
}

/// `text` cut to its first `max` characters, with `...` appended when it was cut.
pub open spec fn truncate_spec(text: Seq<char>, max: nat) -> Seq<char> {
    if text.len() <= max {
        text
    } else {
        text.subrange(0, max as int) + ellipsis()
    }
}

/// Cuts `text` to `max` characters and marks the cut with `...`.
pub fn truncate(text: &str, max: usize) -> (r: String)
    ensures
        r@ == truncate_spec(text@, max as nat),
{
    if text.unicode_len() <= max {
        text.to_owned()
    } else {
        let head = text.substring_char(0, max);
        let mut out = head.to_owned();
        let dots = "...";
        proof {
            reveal_strlit("...");
        }
        out.append(dots);
        assert(out@ =~= text@.subrange(0, max as int) + ellipsis());
        out
    }
}

} // verus!

verus! {

/// The preview payload of a full payload: texts shortened, images replaced by
/// their thumbnail, other data by its length.
pub open spec fn preview_of_content(content: ContentView, thumbnail: Option<Seq<u8>>) -> PreviewView {
    match content {
        ContentView::Text(s) => PreviewView::Text(truncate_spec(s, TEXT_PREVIEW_MAX_CHARS as nat)),
        ContentView::Rtf(s) => PreviewView::Rtf(truncate_spec(s, TEXT_PREVIEW_MAX_CHARS as nat)),
        ContentView::Html(s) => PreviewView::Html(truncate_spec(s, TEXT_PREVIEW_MAX_CHARS as nat)),
        ContentView::Image(_) => PreviewView::Image(
            match thumbnail {
                Some(t) => t,
                None => Seq::empty(),
            },
        ),
        ContentView::Files(fs) => PreviewView::Files(fs),
        ContentView::Other(name, bytes) => PreviewView::Other(name, bytes.len() as u64),
    }
}

/// The preview of a full object.
pub open spec fn preview_of(full: ObjectView) -> ObjectPreviewView {
    ObjectPreviewView {
        id: full.id,
        content_format: full.content_format,
        date: full.date,
        preview: preview_of_content(full.content, full.thumbnail),
        has_formatting: full.formatted_content is Some,
    }
}

/// The preview of an object keeps its id, date and format, and shows a text
/// payload (text, RTF and HTML alike, in the same variant) whole when it has
/// at most 200 characters, and otherwise as its first 200 characters
/// followed by `...`.
pub proof fn lemma_preview_shortens_text(full: ObjectView, s: Seq<char>)
    requires
        full.content == ContentView::Text(s) || full.content == ContentView::Rtf(s) || full.content
            == ContentView::Html(s),
    ensures
        preview_of(full).id == full.id,
        preview_of(full).date == full.date,
        preview_of(full).content_format == full.content_format,
        ({
            let shown = if s.len() <= 200 {
                s
            } else {
                s.subrange(0, 200) + seq!['.', '.', '.']
            };
            &&& full.content == ContentView::Text(s) ==> preview_of(full).preview == PreviewView::Text(shown)
            &&& full.content == ContentView::Rtf(s) ==> preview_of(full).preview == PreviewView::Rtf(shown)
            &&& full.content == ContentView::Html(s) ==> preview_of(full).preview == PreviewView::Html(shown)
            &&& shown.len() <= 203
            &&& s.len() > 200 ==> shown.len() == 203
        }),
{
}

/// The preview of other payloads: an image shows its thumbnail (nothing
/// without one), a file list its paths, other data its format name and byte
/// count; whether there is a formatted form is kept.
pub proof fn lemma_preview_other_payloads(full: ObjectView)
    ensures
        preview_of(full).has_formatting == full.formatted_content is Some,
        full.content is Image ==> preview_of(full).preview == PreviewView::Image(
            match full.thumbnail {
                Some(t) => t,
                None => Seq::<u8>::empty(),
            },
        ),
        full.content matches ContentView::Files(fs) ==> preview_of(full).preview == PreviewView::Files(fs),
        full.content matches ContentView::Other(name, bytes) ==> preview_of(full).preview == PreviewView::Other(
            name,
            bytes.len() as u64,
        ),
{
}

impl CopiedObjectPreview {
    /// Builds the preview that the history table shows of `full`.
    pub fn from_full(full: &CopiedObject) -> (r: Self)
        ensures
            r@ == preview_of(full@),
    {
        let preview = match &full.content {
            ObjectContent::Text(s) => PreviewContent::Text(truncate(s.as_str(), TEXT_PREVIEW_MAX_CHARS)),
            ObjectContent::Rtf(s) => PreviewContent::Rtf(truncate(s.as_str(), TEXT_PREVIEW_MAX_CHARS)),
            ObjectContent::Html(s) => PreviewContent::Html(truncate(s.as_str(), TEXT_PREVIEW_MAX_CHARS)),
            ObjectContent::Image(_) => PreviewContent::Image(
                match &full.thumbnail {
                    Some(t) => copy_bytes(t),
                    None => Vec::new(),
                },
            ),
            ObjectContent::Files(fs) => PreviewContent::Files(copy_strings(fs)),
            ObjectContent::Other(name, b) => PreviewContent::Other(name.clone(), b.len() as u64),
        };
        CopiedObjectPreview {
            id: full.id,
            content_format: full.content_format.clone(),
            date: full.date,
            preview,
            has_formatting: full.formatted_content.is_some(),
        }
    }
}

} // verus!

verus! {

/// Wipes a string through `zeroize`, which overwrites its bytes and empties it.
#[verifier::external_body]
pub(crate) fn wipe_string(s: &mut String)
    ensures
        final(s)@ == Seq::<char>::empty(),
{
    zeroize::Zeroize::zeroize(s)
}

/// Wipes a byte buffer through `zeroize`, which overwrites it and empties it.
#[verifier::external_body]
pub(crate) fn wipe_bytes(b: &mut Vec<u8>)
    ensures
        final(b)@ == Seq::<u8>::empty(),
{
    zeroize::Zeroize::zeroize(b)
}

/// Wipes a list of strings through `zeroize`, which wipes every string and
/// empties the list.
#[verifier::external_body]
pub(crate) fn wipe_strings(v: &mut Vec<String>)
    ensures
        final(v)@ == Seq::<String>::empty(),
{
    zeroize::Zeroize::zeroize(v)
}

/// What a payload is after it has been wiped: same variant, nothing in it.
pub open spec fn wiped_content(c: ContentView) -> ContentView {
    match c {
        ContentView::Text(_) => ContentView::Text(Seq::empty()),
        ContentView::Rtf(_) => ContentView::Rtf(Seq::empty()),
        ContentView::Html(_) => ContentView::Html(Seq::empty()),
        ContentView::Image(_) => ContentView::Image(Seq::empty()),
        ContentView::Files(_) => ContentView::Files(Seq::empty()),
        ContentView::Other(_, _) => ContentView::Other(Seq::empty(), Seq::empty()),
    }
}

/// What a preview payload is after it has been wiped.
pub open spec fn wiped_preview_content(c: PreviewView) -> PreviewView {
    match c {
        PreviewView::Text(_) => PreviewView::Text(Seq::empty()),
        PreviewView::Rtf(_) => PreviewView::Rtf(Seq::empty()),
        PreviewView::Html(_) => PreviewView::Html(Seq::empty()),
        PreviewView::Image(_) => PreviewView::Image(Seq::empty()),
        PreviewView::Files(_) => PreviewView::Files(Seq::empty()),
        PreviewView::Other(_, _) => PreviewView::Other(Seq::empty(), 0),
    }
}

/// What an object is after it has been wiped: payload, thumbnail and formatted
/// content emptied; id, date and format kept.
pub open spec fn wiped_object(o: ObjectView) -> ObjectView {
    ObjectView {
        content: wiped_content(o.content),
        thumbnail: match o.thumbnail {
            Some(_) => Some(Seq::empty()),
            None => None,
        },
        formatted_content: match o.formatted_content {
            Some(_) => Some(Seq::empty()),
            None => None,
        },
        ..o
    }
}

/// What a preview is after it has been wiped: every field reset.
pub open spec fn wiped_preview(p: ObjectPreviewView) -> ObjectPreviewView {
    ObjectPreviewView {
        id: 0,
        content_format: FormatView::Other(Seq::empty()),
        date: 0,
        preview: wiped_preview_content(p.preview),
        has_formatting: false,
    }
}

impl ObjectContent {
    /// Overwrites and empties the payload.
    pub fn zeroize(&mut self)
        ensures
            final(self)@ == wiped_content(old(self)@),
    {
        match self {
            ObjectContent::Text(text) => wipe_string(text),
            ObjectContent::Rtf(rtf) => wipe_string(rtf),
            ObjectContent::Html(html) => wipe_string(html),
            ObjectContent::Image(image) => wipe_bytes(image),
            ObjectContent::Files(files) => {
                wipe_strings(files);
                assert(strings_view(files@) =~= Seq::<Seq<char>>::empty());
            },
            ObjectContent::Other(object_type, bytes) => {
                wipe_string(object_type);
                wipe_bytes(bytes);
            },
        }
    }
}

impl CopiedObject {
    /// Overwrites and empties the payload, the thumbnail and the formatted content.
    pub fn zeroize(&mut self)
        ensures
            final(self)@ == wiped_object(old(self)@),
    {
        self.content.zeroize();
        match &mut self.thumbnail {
            Some(bytes) => wipe_bytes(bytes),
            None => {},
        }
        match &mut self.formatted_content {
            Some(string) => wipe_string(string),
            None => {},
        }
    }
}

impl PreviewContent {
    /// Overwrites and empties the preview payload.
    pub fn zeroize(&mut self)
        ensures
            final(self)@ == wiped_preview_content(old(self)@),
    {
        match self {
            PreviewContent::Text(text) => wipe_string(text),
            PreviewContent::Rtf(rtf) => wipe_string(rtf),
            PreviewContent::Html(html) => wipe_string(html),
            PreviewContent::Image(image) => wipe_bytes(image),
            PreviewContent::Files(files) => {
                wipe_strings(files);
                assert(strings_view(files@) =~= Seq::<Seq<char>>::empty());
            },
            PreviewContent::Other(object_type, len) => {
                wipe_string(object_type);
                *len = 0;
            },
        }
    }
}

impl CopiedObjectPreview {
    /// Overwrites and resets every field of the preview.
    pub fn zeroize(&mut self)
        ensures
            final(self)@ == wiped_preview(old(self)@),
    {
        self.preview.zeroize();
        self.date = 0;
        self.content_format = ObjectFormat::Other(String::new());
        self.id = 0;
        self.has_formatting = false;
    }
}

impl Default for AppSettings {
    fn default() -> (r: Self)
        ensures
            r.retention_amount == 0,
            r.retention_unit == RetentionUnit::Days,
            r.auto_lock_minutes == 5,
            r.encryption is None,
            !r.capture_paused,
    {
        AppSettings {
            retention_amount: 0,
            retention_unit: RetentionUnit::Days,
            auto_lock_minutes: 5,
            encryption: None,
            capture_paused: false,
        }
    }
}

impl Default for RetentionUnit {
    fn default() -> (r: Self)
        ensures
            r == RetentionUnit::Days,
    {
        RetentionUnit::Days
    }
}


impl Clone for EncryptionConfig {
    fn clone(&self) -> (r: Self)
        ensures
            r.recipient@ == self.recipient@,
            r.encrypted_identity@ == self.encrypted_identity@,
    {
        EncryptionConfig { recipient: self.recipient.clone(), encrypted_identity: self.encrypted_identity.clone() }
    }
}

/// Optional encryption configuration, by value.
pub open spec fn opt_config_view(c: Option<EncryptionConfig>) -> Option<(Seq<char>, Seq<char>)> {
    match c {
        Some(c) => Some((c.recipient@, c.encrypted_identity@)),
        None => None,
    }
}

impl Clone for AppSettings {
    fn clone(&self) -> (r: Self)
        ensures
            r.retention_amount == self.retention_amount,
            r.retention_unit == self.retention_unit,
            r.auto_lock_minutes == self.auto_lock_minutes,
            opt_config_view(r.encryption) == opt_config_view(self.encryption),
            r.capture_paused == self.capture_paused,
    {
        AppSettings {
            retention_amount: self.retention_amount,
            retention_unit: self.retention_unit,
            auto_lock_minutes: self.auto_lock_minutes,
            encryption: match &self.encryption {
                Some(c) => Some(c.clone()),
                None => None,
            },
            capture_paused: self.capture_paused,
        }
    }
}


/// Sum of the byte lengths of `files`, or `None` when it exceeds `usize::MAX`.
fn checked_files_byte_len(files: &Vec<String>) -> (r: Option<usize>)
    ensures
        match r {
            Some(n) => n == utf8_len_sum(strings_view(files@)),
            None => utf8_len_sum(strings_view(files@)) > usize::MAX,
        },
{
    let ghost fv = strings_view(files@);
    let mut total: usize = 0;
    let mut i: usize = 0;
    while i < files.len()
        invariant
            i <= files.len(),
            fv == strings_view(files@),
            total == utf8_len_sum(fv.subrange(0, i as int)),
        decreases files.len() - i,
    {
        proof {
            assert(fv.subrange(0, i as int + 1).drop_last() =~= fv.subrange(0, i as int));
            assert(strings_view(files@.subrange(0, i as int + 1)) =~= fv.subrange(0, i as int + 1));
        }
        let n: usize = string_byte_len(&files[i]);
        match total.checked_add(n) {
            Some(t) => total = t,
            None => {
                proof {
                    lemma_utf8_len_sum_prefix_mono(fv, i as int + 1);
                }
                return None;
            },
        }
        i = i + 1;
    }
    proof {
        assert(fv.subrange(0, files@.len() as int) =~= fv);
    }
    Some(total)
}

impl CopiedObject {
    /// The object's size, or `None` when it exceeds `usize::MAX`.
    pub fn checked_object_size(&self) -> (r: Option<usize>)
        ensures
            match r {
                Some(n) => n == object_size_spec(self@),
                None => object_size_spec(self@) > usize::MAX,
            },
    {
        let content_length: usize = match &self.content {
            ObjectContent::Text(s) => string_byte_len(s),
            ObjectContent::Rtf(s) => string_byte_len(s),
            ObjectContent::Html(s) => string_byte_len(s),
            ObjectContent::Image(bytes) => bytes.len(),
            ObjectContent::Files(files) => match checked_files_byte_len(files) {
                Some(n) => n,
                None => return None,
            },
            ObjectContent::Other(name, bytes) => match string_byte_len(name).checked_add(bytes.len()) {
                Some(n) => n,
                None => return None,
            },
        };
        let thumbnail_length: usize = match &self.thumbnail {
            Some(t) => t.len(),
            None => 0,
        };
        let formatted_content_length: usize = match &self.formatted_content {
            Some(f) => string_byte_len(f),
            None => 0,
        };
        match content_length.checked_add(thumbnail_length) {
            Some(n) => n.checked_add(formatted_content_length),
            None => None,
        }
    }
}

impl CopiedObjectPreview {
    /// The preview's size, or `None` when it exceeds `usize::MAX`.
    pub fn checked_object_size(&self) -> (r: Option<usize>)
        ensures
            match r {
                Some(n) => n == preview_size_spec(self@),
                None => preview_size_spec(self@) > usize::MAX,
            },
    {
        match &self.preview {
            PreviewContent::Text(s) => Some(string_byte_len(s)),
            PreviewContent::Rtf(s) => Some(string_byte_len(s)),
            PreviewContent::Html(s) => Some(string_byte_len(s)),
            PreviewContent::Image(bytes) => Some(bytes.len()),
            PreviewContent::Files(files) => checked_files_byte_len(files),
            PreviewContent::Other(name, _) => Some(string_byte_len(name)),
        }
    }
}


/// The text shown to the user for an error.
pub open spec fn error_message(e: AppError) -> Seq<char> {
    match e {
        AppError::Custom(s) => "An error occurred: "@ + s@,
        AppError::TauriStore(s) => "An error occurred with the Tauri Store plugin: "@ + s@,
        AppError::ClipboardRs(s) => "An error occurred with clipboard-rs: "@ + s@,
        AppError::SerdeJson(s) => "An error occurred with serde_json: "@ + s@,
        AppError::Locked => "History is locked. Enter the password to unlock."@,
        AppError::BadPassword => "Incorrect password."@,
        AppError::Crypto(s) => "A cryptographic error occurred: "@ + s@,
        AppError::TauriState => "An error occurred with Tauri's managed state system"@,
        AppError::EncryptionReconfigured => "Encryption configuration changed during an operation"@,
    }
}

/// `prefix` followed by `detail`.
fn prefixed(prefix: &str, detail: &String) -> (r: String)
    ensures
        r@ == prefix@ + detail@,
{
    let mut r = prefix.to_owned();
    r.append(detail.as_str());
    r
}

impl AppError {
    /// The text shown to the user for this error.
    pub fn message(&self) -> (r: String)
        ensures
            r@ == error_message(*self),
    {
        match self {
            AppError::Custom(s) => prefixed("An error occurred: ", s),
            AppError::TauriStore(s) => prefixed("An error occurred with the Tauri Store plugin: ", s),
            AppError::ClipboardRs(s) => prefixed("An error occurred with clipboard-rs: ", s),
            AppError::SerdeJson(s) => prefixed("An error occurred with serde_json: ", s),
            AppError::Locked => "History is locked. Enter the password to unlock.".to_owned(),
            AppError::BadPassword => "Incorrect password.".to_owned(),
            AppError::Crypto(s) => prefixed("A cryptographic error occurred: ", s),
            AppError::TauriState => "An error occurred with Tauri's managed state system".to_owned(),
            AppError::EncryptionReconfigured => "Encryption configuration changed during an operation".to_owned(),
        }
    }
}

} // verus!
