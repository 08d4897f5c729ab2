//! History entries as they are stored, the content fingerprint used to skip
//! repeated copies, and the age encryption of entries and of the identity.
use vstd::prelude::*;
use vstd::utf8::{decode_utf8, encode_utf8, valid_utf8};

use crate::text::trimmed;
use crate::model::{
    opt_bytes_view, opt_string_view, strings_view, wipe_bytes, wipe_string, wiped_content,
    wiped_object, AppError, EncryptionConfig, ContentView, CopiedObject, ObjectContent, ObjectFormat, ObjectView,
};

verus! {

/// An entry whose payload is encrypted to the vault's recipient.
#[derive(Debug)]
pub struct EncryptedRecord {
    pub id: u32,
    pub date: u64,
    pub ciphertext: String,
}

/// A stored history entry.
#[derive(Debug)]
pub enum HistoryEntry {
    Encrypted(EncryptedRecord),
    Plain(CopiedObject),
}

/// What an encrypted record decrypts to.
pub struct PlaintextPayload {
    pub id: Option<u32>,
    pub date: Option<u64>,
    pub content: ObjectContent,
    pub content_format: ObjectFormat,
    pub thumbnail: Option<Vec<u8>>,
    pub formatted_content: Option<String>,
}

/// Mathematical value of an [`EncryptedRecord`].
pub struct RecordView {
    pub id: u32,
    pub date: u64,
    pub ciphertext: Seq<char>,
}

/// Mathematical value of a [`HistoryEntry`].
pub enum EntryView {
    Encrypted(RecordView),
    Plain(ObjectView),
}

impl View for EncryptedRecord {
    type V = RecordView;

    open spec fn view(&self) -> RecordView {
        RecordView { id: self.id, date: self.date, ciphertext: self.ciphertext@ }
    }
}

impl View for HistoryEntry {
    type V = EntryView;

    open spec fn view(&self) -> EntryView {
        match self {
            HistoryEntry::Encrypted(e) => EntryView::Encrypted(e@),
            HistoryEntry::Plain(o) => EntryView::Plain(o@),
        }
    }
}

/// The id under which an entry is listed.
pub open spec fn entry_id(e: EntryView) -> u32 {
    match e {
        EntryView::Encrypted(r) => r.id,
        EntryView::Plain(o) => o.id,
    }
}

/// The date under which an entry is listed.
pub open spec fn entry_date(e: EntryView) -> u64 {
    match e {
        EntryView::Encrypted(r) => r.date,
        EntryView::Plain(o) => o.date,
    }
}

impl HistoryEntry {
    /// The id under which the entry is listed.
    pub fn id(&self) -> (r: u32)
        ensures
            r == entry_id(self@),
    {
        match self {
            HistoryEntry::Plain(o) => o.id,
            HistoryEntry::Encrypted(e) => e.id,
        }
    }

    /// The date under which the entry is listed.
    pub fn date(&self) -> (r: u64)
        ensures
            r == entry_date(self@),
    {
        match self {
            HistoryEntry::Plain(o) => o.date,
            HistoryEntry::Encrypted(e) => e.date,
        }
    }
}

impl PlaintextPayload {
    /// The id the payload carries, or else the record's.
    pub fn authoritative_id(&self, record: &EncryptedRecord) -> (r: u32)
        ensures
            r == match self.id {
                Some(id) => id,
                None => record.id,
            },
    {
        match self.id {
            Some(id) => id,
            None => record.id,
        }
    }

    /// The date the payload carries, or else the record's.
    pub fn authoritative_date(&self, record: &EncryptedRecord) -> (r: u64)
        ensures
            r == match self.date {
                Some(date) => date,
                None => record.date,
            },
    {
        match self.date {
            Some(date) => date,
            None => record.date,
        }
    }
}

/// SHA-256 digest of `data`, as the `sha2` crate computes it.
pub uninterp spec fn sha256(data: Seq<u8>) -> Seq<u8>;

/// Standard base64 encoding, with padding, of `data`, as the `base64` crate's
/// `STANDARD` engine computes it.
pub uninterp spec fn base64_standard(data: Seq<u8>) -> Seq<char>;

/// Length of a padded base64 encoding of `n` bytes.
pub open spec fn base64_len(n: nat) -> nat {
    4 * ((n + 2) / 3)
}

/// SHA-256 digest of `data`.
#[verifier::external_body]
fn sha256_digest(data: &[u8]) -> (r: Vec<u8>)
    ensures
        r@ == sha256(data@),
        r@.len() == 32,
{
    <sha2::Sha256 as sha2::Digest>::digest(data).to_vec()
}

/// Standard padded base64 encoding of `data`.
#[verifier::external_body]
pub(crate) fn base64_encode(data: &[u8]) -> (r: String)
    requires
        base64_len(data@.len() as nat) <= usize::MAX,
    ensures
        r@ == base64_standard(data@),
        r@.len() == base64_len(data@.len() as nat),
        base64_standard_decode(r@) == Some(data@),
{
    base64::Engine::encode(&base64::engine::general_purpose::STANDARD, data)
}

/// The bytes a list of file paths contributes to the fingerprint: each path
/// followed by a zero byte.
pub open spec fn files_hash_input(files: Seq<Seq<char>>) -> Seq<u8>
    decreases files.len(),
{
    if files.len() == 0 {
        Seq::empty()
    } else {
        files_hash_input(files.drop_last()) + encode_utf8(files.last()) + seq![0u8]
    }
}

/// The bytes that are hashed to fingerprint a payload: a tag naming the kind
/// of payload, then the payload.
pub open spec fn hash_input(content: ContentView) -> Seq<u8> {
    match content {
        ContentView::Text(s) => encode_utf8("text:"@) + encode_utf8(s),
        ContentView::Rtf(s) => encode_utf8("rtf:"@) + encode_utf8(s),
        ContentView::Html(s) => encode_utf8("html:"@) + encode_utf8(s),
        ContentView::Image(bytes) => encode_utf8("image:"@) + bytes,
        ContentView::Files(files) => encode_utf8("files:"@) + files_hash_input(files),
        ContentView::Other(name, bytes) => encode_utf8("other:"@) + encode_utf8(name) + seq![0u8]
            + bytes,
    }
}

/// The fingerprint of a payload: base64 of the SHA-256 digest of its tagged bytes.
pub open spec fn content_hash_spec(content: ContentView) -> Seq<char> {
    base64_standard(sha256(hash_input(content)))
}

/// Appends `more` to `buf`.
fn append_bytes(buf: &mut Vec<u8>, more: &[u8])
    ensures
        final(buf)@ == old(buf)@ + more@,
{
    buf.extend_from_slice(more);
    assert(buf@ =~= old(buf)@ + more@);
}

/// Appends the UTF-8 bytes of `s` to `buf`.
fn append_str(buf: &mut Vec<u8>, s: &str)
    ensures
        final(buf)@ == old(buf)@ + encode_utf8(s@),
{
    append_bytes(buf, s.as_bytes());
}

/// The fingerprint of a payload, used to recognise a repeated copy.
pub fn content_hash(content: &ObjectContent) -> (r: String)
    ensures
        r@ == content_hash_spec(content@),
        r@.len() == 44,
{
    let mut input: Vec<u8> = Vec::new();
    match content {
        ObjectContent::Text(s) => {
            append_str(&mut input, "text:");
            append_str(&mut input, s.as_str());
        },
        ObjectContent::Rtf(s) => {
            append_str(&mut input, "rtf:");
            append_str(&mut input, s.as_str());
        },
        ObjectContent::Html(s) => {
            append_str(&mut input, "html:");
            append_str(&mut input, s.as_str());
        },
        ObjectContent::Image(bytes) => {
            append_str(&mut input, "image:");
            append_bytes(&mut input, bytes.as_slice());
        },
        ObjectContent::Files(files) => {
            append_str(&mut input, "files:");
            let ghost head = input@;
            let mut i: usize = 0;
            while i < files.len()
                invariant
                    i <= files@.len(),
                    input@ == head + files_hash_input(strings_view(files@).subrange(0, i as int)),
                decreases files@.len() - i,
            {
                append_str(&mut input, files[i].as_str());
                append_bytes(&mut input, &[0u8]);
                proof {
                    let fv = strings_view(files@);
                    assert(fv.subrange(0, i as int + 1).drop_last() =~= fv.subrange(0, i as int));
                    assert(input@ =~= head + files_hash_input(fv.subrange(0, i as int + 1)));
                }
                i = i + 1;
            }
            proof {
                assert(strings_view(files@).subrange(0, files@.len() as int) =~= strings_view(files@));
            }
        },
        ObjectContent::Other(name, bytes) => {
            append_str(&mut input, "other:");
            append_str(&mut input, name.as_str());
            append_bytes(&mut input, &[0u8]);
            append_bytes(&mut input, bytes.as_slice());
        },
    }
    assert(input@ =~= hash_input(content@));
    let digest = sha256_digest(input.as_slice());
    base64_encode(digest.as_slice())
}

/// Whether a payload's fingerprint input can be read back unambiguously:
/// no file path and no format name holds a NUL, the separator after each.
pub open spec fn fingerprint_separable(content: ContentView) -> bool {
    match content {
        ContentView::Files(files) => forall|i: int| 0 <= i < files.len() ==> !(#[trigger] files[i]).contains('\0'),
        ContentView::Other(name, _) => !name.contains('\0'),
        _ => true,
    }
}

/// A character other than NUL has no zero byte in its UTF-8 encoding.
proof fn lemma_scalar_bytes_nonzero(v: u32)
    requires
        v != 0,
        vstd::utf8::is_scalar(v),
    ensures
        !vstd::utf8::encode_scalar(v).contains(0u8),
{
    let e = vstd::utf8::encode_scalar(v);
    assert(0 < v && v <= 0x7F ==> (v & 0x7F) as u8 != 0u8) by (bit_vector);
    assert((0xC0u8 | ((v >> 6u32) & 0x1Fu32) as u8) != 0u8) by (bit_vector);
    assert((0xE0u8 | ((v >> 12u32) & 0x0Fu32) as u8) != 0u8) by (bit_vector);
    assert((0xF0u8 | ((v >> 18u32) & 0x7u32) as u8) != 0u8) by (bit_vector);
    assert((0x80u8 | (v & 0x3Fu32) as u8) != 0u8) by (bit_vector);
    assert((0x80u8 | ((v >> 6u32) & 0x3Fu32) as u8) != 0u8) by (bit_vector);
    assert((0x80u8 | ((v >> 12u32) & 0x3Fu32) as u8) != 0u8) by (bit_vector);
    assert forall|i: int| 0 <= i < e.len() implies e[i] != 0u8 by {}
}

/// Text without NUL has no zero byte in its UTF-8 encoding.
proof fn lemma_utf8_no_zero(s: Seq<char>)
    requires
        !s.contains('\0'),
    ensures
        !encode_utf8(s).contains(0u8),
    decreases s.len(),
{
    if s.len() > 0 {
        vstd::utf8::char_is_scalar(s[0]);
        assert(s[0] != '\0');
        assert((s[0] as u32) != 0) by {
            if (s[0] as u32) == 0 {
                vstd::utf8::char_u32_cast(s[0], 0u32);
                vstd::utf8::char_u32_cast('\0', 0u32);
            }
        }
        lemma_scalar_bytes_nonzero(s[0] as u32);
        assert(!s.drop_first().contains('\0')) by {
            assert forall|i: int| 0 <= i < s.drop_first().len() implies s.drop_first()[i] != '\0' by {
                assert(s.drop_first()[i] == s[i + 1]);
            }
        }
        lemma_utf8_no_zero(s.drop_first());
        let a = vstd::utf8::encode_scalar(s[0] as u32);
        let b = encode_utf8(s.drop_first());
        assert forall|i: int| 0 <= i < (a + b).len() implies (a + b)[i] != 0u8 by {
            if i < a.len() {
                assert(a[i] != 0u8);
            } else {
                assert(b[i - a.len()] != 0u8);
            }
        }
    }
}

/// UTF-8 encoding is one to one.
proof fn lemma_utf8_injective(a: Seq<char>, b: Seq<char>)
    requires
        encode_utf8(a) == encode_utf8(b),
    ensures
        a == b,
{
    vstd::utf8::encode_utf8_decode_utf8(a);
    vstd::utf8::encode_utf8_decode_utf8(b);
}

/// A zero byte after a zero-free prefix marks where the prefix ends.
proof fn lemma_split_at_zero(x: Seq<u8>, y: Seq<u8>, x2: Seq<u8>, y2: Seq<u8>)
    requires
        !x.contains(0u8),
        !x2.contains(0u8),
        x + seq![0u8] + y == x2 + seq![0u8] + y2,
    ensures
        x == x2,
        y == y2,
{
    let s = x + seq![0u8] + y;
    let s2 = x2 + seq![0u8] + y2;
    if x.len() < x2.len() {
        assert(s[x.len() as int] == 0u8);
        assert(s2[x.len() as int] == x2[x.len() as int]);
        assert(false);
    } else if x2.len() < x.len() {
        assert(s2[x2.len() as int] == 0u8);
        assert(s[x2.len() as int] == x[x2.len() as int]);
        assert(false);
    }
    assert(x =~= s.subrange(0, x.len() as int));
    assert(x2 =~= s2.subrange(0, x2.len() as int));
    assert(y =~= s.subrange(x.len() as int + 1, s.len() as int));
    assert(y2 =~= s2.subrange(x2.len() as int + 1, s2.len() as int));
}

/// The path list's bytes read from the front: the first path, a zero byte,
/// then the rest.
proof fn lemma_files_hash_input_front(files: Seq<Seq<char>>)
    requires
        files.len() > 0,
    ensures
        files_hash_input(files) == encode_utf8(files[0]) + seq![0u8] + files_hash_input(files.drop_first()),
    decreases files.len(),
{
    if files.len() == 1 {
        assert(files.drop_last() =~= Seq::<Seq<char>>::empty());
        assert(files.drop_first() =~= Seq::<Seq<char>>::empty());
        assert(files_hash_input(files.drop_last()) =~= Seq::<u8>::empty());
        assert(files_hash_input(files.drop_first()) =~= Seq::<u8>::empty());
        assert(files.last() == files[0]);
        assert(files_hash_input(files) =~= encode_utf8(files[0]) + seq![0u8] + files_hash_input(files.drop_first()));
    } else {
        let init = files.drop_last();
        lemma_files_hash_input_front(init);
        assert(init.drop_first() =~= files.drop_first().drop_last());
        assert(files.drop_first().last() == files.last());
        assert(files_hash_input(files) =~= encode_utf8(files[0]) + seq![0u8] + files_hash_input(files.drop_first()));
    }
}

/// Path lists without NUL give equal bytes only when they are equal.
proof fn lemma_files_hash_input_injective(a: Seq<Seq<char>>, b: Seq<Seq<char>>)
    requires
        forall|i: int| 0 <= i < a.len() ==> !(#[trigger] a[i]).contains('\0'),
        forall|i: int| 0 <= i < b.len() ==> !(#[trigger] b[i]).contains('\0'),
        files_hash_input(a) == files_hash_input(b),
    ensures
        a == b,
    decreases a.len(),
{
    if a.len() == 0 && b.len() == 0 {
        assert(a =~= b);
    } else if a.len() == 0 {
        lemma_files_hash_input_front(b);
        assert(files_hash_input(b).len() > 0);
    } else if b.len() == 0 {
        lemma_files_hash_input_front(a);
        assert(files_hash_input(a).len() > 0);
    } else {
        lemma_files_hash_input_front(a);
        lemma_files_hash_input_front(b);
        lemma_utf8_no_zero(a[0]);
        lemma_utf8_no_zero(b[0]);
        lemma_split_at_zero(
            encode_utf8(a[0]),
            files_hash_input(a.drop_first()),
            encode_utf8(b[0]),
            files_hash_input(b.drop_first()),
        );
        lemma_utf8_injective(a[0], b[0]);
        assert forall|i: int| 0 <= i < a.drop_first().len() implies !(#[trigger] a.drop_first()[i]).contains('\0') by {
            assert(a.drop_first()[i] == a[i + 1]);
        }
        assert forall|i: int| 0 <= i < b.drop_first().len() implies !(#[trigger] b.drop_first()[i]).contains('\0') by {
            assert(b.drop_first()[i] == b[i + 1]);
        }
        lemma_files_hash_input_injective(a.drop_first(), b.drop_first());
        assert(a =~= seq![a[0]] + a.drop_first());
        assert(b =~= seq![b[0]] + b.drop_first());
    }
}

/// The first byte of the UTF-8 encoding of text that starts with an ASCII
/// character is that character.
proof fn lemma_ascii_first_byte(s: Seq<char>)
    requires
        s.len() > 0,
        (s[0] as u32) < 0x80,
    ensures
        encode_utf8(s).len() > 0,
        encode_utf8(s)[0] == (s[0] as u32) as u8,
{
    let v = s[0] as u32;
    assert(v < 0x80 ==> (v & 0x7F) as u8 == v as u8) by (bit_vector);
    assert(vstd::utf8::encode_scalar(v) =~= seq![v as u8]);
}

/// The kind tag of a payload, as it starts the fingerprint input.
pub open spec fn hash_tag(content: ContentView) -> Seq<char> {
    match content {
        ContentView::Text(_) => "text:"@,
        ContentView::Rtf(_) => "rtf:"@,
        ContentView::Html(_) => "html:"@,
        ContentView::Image(_) => "image:"@,
        ContentView::Files(_) => "files:"@,
        ContentView::Other(_, _) => "other:"@,
    }
}

/// The fingerprint input is the tag's bytes and then the payload's bytes.
proof fn lemma_hash_input_tagged(content: ContentView)
    ensures
        hash_input(content) == encode_utf8(hash_tag(content)) + hash_input(content).subrange(
            encode_utf8(hash_tag(content)).len() as int,
            hash_input(content).len() as int,
        ),
        encode_utf8(hash_tag(content)).len() > 0,
        encode_utf8(hash_tag(content))[0] == (hash_tag(content)[0] as u32) as u8,
{
    reveal_strlit("text:");
    reveal_strlit("rtf:");
    reveal_strlit("html:");
    reveal_strlit("image:");
    reveal_strlit("files:");
    reveal_strlit("other:");
    lemma_ascii_first_byte(hash_tag(content));
    let t = encode_utf8(hash_tag(content));
    let h = hash_input(content);
    assert(h.subrange(0, t.len() as int) =~= t);
    assert(h =~= t + h.subrange(t.len() as int, h.len() as int));
}

/// Two payloads give the same fingerprint input exactly when they are the
/// same payload, as long as no file path or format name holds a NUL: the tag
/// tells the kinds apart, and each path and the format name ends at its NUL.
/// Equal payloads therefore always get equal fingerprints, and different
/// ones differ before hashing.
pub proof fn lemma_hash_input_injective(a: ContentView, b: ContentView)
    requires
        fingerprint_separable(a),
        fingerprint_separable(b),
    ensures
        hash_input(a) == hash_input(b) <==> a == b,
        a == b ==> content_hash_spec(a) == content_hash_spec(b),
{
    if hash_input(a) == hash_input(b) {
        reveal_strlit("text:");
        reveal_strlit("rtf:");
        reveal_strlit("html:");
        reveal_strlit("image:");
        reveal_strlit("files:");
        reveal_strlit("other:");
        lemma_hash_input_tagged(a);
        lemma_hash_input_tagged(b);
        let ta = encode_utf8(hash_tag(a));
        let tb = encode_utf8(hash_tag(b));
        assert(hash_input(a)[0] == ta[0]);
        assert(hash_input(b)[0] == tb[0]);
        assert(hash_tag(a) == hash_tag(b)) by {
            assert(hash_tag(a)[0] as u32 == hash_tag(b)[0] as u32);
        }
        let n = ta.len() as int;
        let ra = hash_input(a).subrange(n, hash_input(a).len() as int);
        let rb = hash_input(b).subrange(n, hash_input(b).len() as int);
        assert(ra == rb);
        match (a, b) {
            (ContentView::Text(x), ContentView::Text(y)) => {
                assert(ra =~= encode_utf8(x));
                assert(rb =~= encode_utf8(y));
                lemma_utf8_injective(x, y);
            },
            (ContentView::Rtf(x), ContentView::Rtf(y)) => {
                assert(ra =~= encode_utf8(x));
                assert(rb =~= encode_utf8(y));
                lemma_utf8_injective(x, y);
            },
            (ContentView::Html(x), ContentView::Html(y)) => {
                assert(ra =~= encode_utf8(x));
                assert(rb =~= encode_utf8(y));
                lemma_utf8_injective(x, y);
            },
            (ContentView::Image(x), ContentView::Image(y)) => {
                assert(ra =~= x);
                assert(rb =~= y);
            },
            (ContentView::Files(x), ContentView::Files(y)) => {
                assert(ra =~= files_hash_input(x));
                assert(rb =~= files_hash_input(y));
                lemma_files_hash_input_injective(x, y);
            },
            (ContentView::Other(x, u), ContentView::Other(y, w)) => {
                assert(ra =~= encode_utf8(x) + seq![0u8] + u);
                assert(rb =~= encode_utf8(y) + seq![0u8] + w);
                lemma_utf8_no_zero(x);
                lemma_utf8_no_zero(y);
                lemma_split_at_zero(encode_utf8(x), u, encode_utf8(y), w);
                lemma_utf8_injective(x, y);
            },
            _ => {
                assert(false);
            },
        }
    }
}

} // verus!

verus! {
/// Whether `recipient_from_str` accepts a string: age's `Recipient::from_str`
/// succeeds exactly on a Bech32 string with the `age` prefix and a 32-byte key.
pub uninterp spec fn recipient_parses(s: Seq<char>) -> bool;

/// Whether age's `Identity::from_str` accepts a string: exactly a Bech32
/// string with the `age-secret-key-` prefix and a 32-byte key.
pub uninterp spec fn identity_parses(s: Seq<char>) -> bool;

/// The bytes that standard padded base64 decoding gives for a string, or
/// `None` where the `base64` crate's `STANDARD` engine rejects it.
pub uninterp spec fn base64_standard_decode(s: Seq<char>) -> Option<Seq<u8>>;

/// The Bech32 text of the recipient of the identity written as `identity`:
/// what age's `Identity::to_public` gives, through its `Display` impl.
pub uninterp spec fn recipient_of(identity: Seq<char>) -> Seq<char>;

/// What age's `decrypt` makes of the age file `ct` with the x25519 identity
/// written as `identity`: the plaintext, or `None` where the identity text
/// does not parse or the file does not decrypt with it.
pub uninterp spec fn x25519_open(ct: Seq<u8>, identity: Seq<char>) -> Option<Seq<u8>>;

/// The plaintext of the passphrase-encrypted age file `ct` under
/// `passphrase`, or `None` where the passphrase does not open it, whatever
/// work that takes.
pub uninterp spec fn scrypt_open(ct: Seq<u8>, passphrase: Seq<char>) -> Option<Seq<u8>>;

/// What age's `Decryptor::new` makes of `bytes`: `None` where it rejects them
/// (no valid age header and nonce), `Some(true)` for a file encrypted with a
/// passphrase, `Some(false)` for one encrypted to recipients.
pub uninterp spec fn age_passphrase_header(bytes: Seq<u8>) -> Option<bool>;

/// Standard padded base64 decoding of `s`; the error is the crate's message.
/// The bytes, as every `Vec<u8>`, number at most `isize::MAX`.
#[verifier::external_body]
fn base64_decode(s: &str) -> (r: Result<Vec<u8>, String>)
    ensures
        match r {
            Ok(bytes) => base64_standard_decode(s@) == Some(bytes@) && bytes@.len() <= isize::MAX,
            Err(_) => base64_standard_decode(s@) is None,
        },
{
    base64::Engine::decode(&base64::engine::general_purpose::STANDARD, s).map_err(|e| e.to_string())
}

/// age's `Recipient::from_str`, keeping only whether it succeeds; the error
/// is age's message.
#[verifier::external_body]
fn recipient_from_str(s: &str) -> (r: Result<(), String>)
    ensures
        r is Ok <==> recipient_parses(s@),
{
    <age::x25519::Recipient as std::str::FromStr>::from_str(s).map(|_| ()).map_err(|e| e.to_string())
}

/// age's `Identity::from_str`, keeping only whether it succeeds; the error is
/// age's message.
#[verifier::external_body]
fn identity_from_str(s: &str) -> (r: Result<(), String>)
    ensures
        r is Ok <==> identity_parses(s@),
{
    <age::x25519::Identity as std::str::FromStr>::from_str(s).map(|_| ()).map_err(|e| e.to_string())
}

/// `str::trim`.
#[verifier::external_body]
fn trim(s: &str) -> (r: &str)
    ensures
        r@ == trimmed(s@),
{
    s.trim()
}

/// `String::from_utf8`: the text that `bytes` encode in UTF-8, or the error
/// message where they are not valid UTF-8.
#[verifier::external_body]
fn utf8_text(bytes: Vec<u8>) -> (r: Result<String, String>)
    ensures
        match r {
            Ok(s) => valid_utf8(bytes@) && s@ == decode_utf8(bytes@),
            Err(_) => !valid_utf8(bytes@),
        },
{
    String::from_utf8(bytes).map_err(|e| e.to_string())
}

/// age's `Identity::generate`: a fresh random identity, written as its
/// Bech32 text (which `Identity::from_str` reads back). Bech32 text holds
/// only characters of its alphabet, so trimming leaves it as it is.
#[verifier::external_body]
fn generate_identity() -> (r: String)
    ensures
        identity_parses(r@),
        trimmed(r@) == r@,
{
    age::secrecy::ExposeSecret::expose_secret(&age::x25519::Identity::generate().to_string()).to_owned()
}

/// age's `Identity::to_public` of the identity written as `identity`, as the
/// Bech32 text of the recipient, which `Recipient::from_str` reads back.
#[verifier::external_body]
fn identity_recipient(identity: &str) -> (r: Result<String, String>)
    ensures
        identity_parses(identity@) <==> r is Ok,
        r matches Ok(t) ==> t@ == recipient_of(identity@) && recipient_parses(t@),
{
    <age::x25519::Identity as std::str::FromStr>::from_str(identity)
        .map(|id| id.to_public().to_string())
        .map_err(|e| e.to_string())
}

/// What age's Bech32 reading makes of `s` (`bech32::decode`, then the 5-bit
/// groups as bytes, as age's `parse_bech32` does): the human-readable part,
/// the data bytes, and whether the checksum is of the Bech32 (not Bech32m)
/// variant; `None` where either step fails.
pub uninterp spec fn bech32_parts(s: Seq<char>) -> Option<(Seq<char>, Seq<u8>, bool)>;

/// The X25519 function of RFC 7748 on the 32-byte scalar `k` (clamped) and
/// the 32-byte u-coordinate `u`, as x25519-dalek's `x25519` computes it.
pub uninterp spec fn x25519_fn(k: Seq<u8>, u: Seq<u8>) -> Seq<u8>;

/// The key that age's `Recipient::from_str` reads from `s`: the data of a
/// Bech32 string with the `age` prefix, when it is 32 bytes long.
pub open spec fn recipient_key(s: Seq<char>) -> Option<Seq<u8>> {
    match bech32_parts(s) {
        Some((hrp, data, bech32)) => if bech32 && hrp == "age"@ && data.len() == 32 {
            Some(data)
        } else {
            None
        },
        None => None,
    }
}

/// The scalar used to test a recipient key: 32 bytes of 1.
pub open spec fn test_scalar() -> Seq<u8> {
    Seq::new(32, |i: int| 1u8)
}

/// 32 zero bytes: X25519's output for a low-order point.
pub open spec fn zero_key() -> Seq<u8> {
    Seq::new(32, |i: int| 0u8)
}

/// Whether `s` is an age recipient whose key is a low-order point: X25519
/// gives all zeros for it. X25519 clamps every scalar to a multiple of the
/// cofactor 8, so this is so for one scalar exactly when it is so for all,
/// age's random ephemeral ones included.
pub open spec fn low_order_recipient(s: Seq<char>) -> bool {
    match recipient_key(s) {
        Some(key) => x25519_fn(test_scalar(), key) == zero_key(),
        None => false,
    }
}

/// `bech32::decode` of `s`, with the 5-bit groups read back as bytes
/// (`FromBase32`) and the checksum variant told apart.
#[verifier::external_body]
fn bech32_decode(s: &str) -> (r: Option<(String, Vec<u8>, bool)>)
    ensures
        match r {
            Some((hrp, data, bech32)) => bech32_parts(s@) == Some((hrp@, data@, bech32)),
            None => bech32_parts(s@) is None,
        },
{
    let (hrp, data, variant) = bech32::decode(s).ok()?;
    let bytes = <Vec<u8> as bech32::FromBase32>::from_base32(&data).ok()?;
    match variant {
        bech32::Variant::Bech32 => Some((hrp, bytes, true)),
        bech32::Variant::Bech32m => Some((hrp, bytes, false)),
    }
}

/// x25519-dalek's `x25519` of the scalar `k` and the u-coordinate `u`.
#[verifier::external_body]
fn x25519(k: &[u8], u: &[u8]) -> (r: Vec<u8>)
    requires
        k@.len() == 32,
        u@.len() == 32,
    ensures
        r@ == x25519_fn(k@, u@),
        r@.len() == 32,
{
    let k: [u8; 32] = k.try_into().unwrap();
    let u: [u8; 32] = u.try_into().unwrap();
    x25519_dalek::x25519(k, u).to_vec()
}

/// Whether the recipient written as `recipient` has a low-order key, for
/// which age's encryption would meet an all-zero shared secret.
pub fn is_low_order_recipient(recipient: &str) -> (r: bool)
    ensures
        r == low_order_recipient(recipient@),
{
    let (hrp, data, bech32) = match bech32_decode(recipient) {
        Some(parts) => parts,
        None => return false,
    };
    let age_hrp = "age".to_owned();
    if !bech32 || hrp != age_hrp || data.len() != 32 {
        return false;
    }
    let scalar: Vec<u8> = vec![1u8; 32];
    assert(scalar@ =~= test_scalar());
    let out = x25519(scalar.as_slice(), data.as_slice());
    assert(recipient_key(recipient@) == Some(data@));
    let mut i: usize = 0;
    while i < 32
        invariant
            i <= 32,
            out@.len() == 32,
            out@ == x25519_fn(test_scalar(), data@),
            recipient_key(recipient@) == Some(data@),
            forall|j: int| 0 <= j < i ==> out@[j] == 0u8,
        decreases 32 - i,
    {
        if out[i] != 0 {
            assert(out@ != zero_key()) by {
                assert(out@[i as int] != zero_key()[i as int]);
            }
            return false;
        }
        i = i + 1;
    }
    assert(out@ =~= zero_key());
    true
}

/// age's `encrypt` of `plaintext` to the x25519 recipient written as
/// `recipient`: an age file encrypted to recipients, which every identity
/// whose recipient that is decrypts to `plaintext`. It fails only on a
/// recipient text that does not parse: the stanza is always made and the file
/// is written into memory. age panics when the shared secret is all zero,
/// which a low-order recipient key forces whatever the ephemeral key; such
/// keys are left out. The file key is random, so nothing is said of which
/// file comes back.
#[verifier::external_body]
fn x25519_encrypt(plaintext: &[u8], recipient: &str) -> (r: Result<Vec<u8>, String>)
    requires
        !low_order_recipient(recipient@),
    ensures
        r is Ok <==> recipient_parses(recipient@),
        r matches Ok(ct) ==> {
            &&& ct@.len() <= isize::MAX
            &&& age_passphrase_header(ct@) == Some(false)
            &&& forall|id: Seq<char>|
                identity_parses(id) && recipient_of(id) == recipient@ ==> #[trigger] x25519_open(ct@, id) == Some(
                    plaintext@,
                )
        },
{
    let to = <age::x25519::Recipient as std::str::FromStr>::from_str(recipient).map_err(|e| e.to_string())?;
    age::encrypt(&to, plaintext).map_err(|e| e.to_string())
}

/// age's `encrypt` of `plaintext` to the passphrase `passphrase` (an scrypt
/// recipient): an age file encrypted with a passphrase, which that
/// passphrase opens to `plaintext`. It does not fail: the stanza is always
/// made and the file is written into memory. The salt and file key are random.
#[verifier::external_body]
fn scrypt_encrypt(plaintext: &[u8], passphrase: &str) -> (r: Result<Vec<u8>, String>)
    ensures
        r is Ok,
        r matches Ok(ct) ==> {
            &&& ct@.len() <= isize::MAX
            &&& age_passphrase_header(ct@) == Some(true)
            &&& scrypt_open(ct@, passphrase@) == Some(plaintext@)
        },
{
    let to = age::scrypt::Recipient::new(age::secrecy::SecretString::from(passphrase.to_owned()));
    age::encrypt(&to, plaintext).map_err(|e| e.to_string())
}

/// age's `Decryptor::new` on an age file, telling whether it is encrypted
/// with a passphrase (`Decryptor::is_scrypt`).
#[verifier::external_body]
fn age_header(ciphertext: &[u8]) -> (r: Result<bool, String>)
    ensures
        match r {
            Ok(scrypt) => age_passphrase_header(ciphertext@) == Some(scrypt),
            Err(_) => age_passphrase_header(ciphertext@) is None,
        },
{
    match age::Decryptor::new(ciphertext) {
        Ok(decryptor) => Ok(decryptor.is_scrypt()),
        Err(e) => Err(e.to_string()),
    }
}

/// age's `decrypt` of the age file `ciphertext` with the x25519 identity
/// written as `identity`.
#[verifier::external_body]
fn x25519_decrypt(ciphertext: &[u8], identity: &str) -> (r: Result<Vec<u8>, String>)
    ensures
        match r {
            Ok(plaintext) => x25519_open(ciphertext@, identity@) == Some(plaintext@),
            Err(_) => x25519_open(ciphertext@, identity@) is None,
        },
{
    let key = <age::x25519::Identity as std::str::FromStr>::from_str(identity).map_err(|e| e.to_string())?;
    age::decrypt(&key, ciphertext).map_err(|e| e.to_string())
}

/// age's `decrypt` of the age file `ciphertext` with the passphrase
/// `passphrase` (an scrypt identity). Besides a wrong passphrase, age refuses
/// a file whose work factor exceeds a limit it measures from this machine's
/// speed, so a failure is not stated to mean a wrong passphrase.
#[verifier::external_body]
fn scrypt_decrypt(ciphertext: &[u8], passphrase: &str) -> (r: Result<Vec<u8>, String>)
    ensures
        r matches Ok(plaintext) ==> scrypt_open(ciphertext@, passphrase@) == Some(plaintext@),
        scrypt_open(ciphertext@, passphrase@) is None ==> r is Err,
{
    let key = age::scrypt::Identity::new(age::secrecy::SecretString::from(passphrase.to_owned()));
    age::decrypt(&key, ciphertext).map_err(|e| e.to_string())
}

/// The vault: the recipient new entries are encrypted to, and the identity
/// that decrypts them while the vault is open, each as its Bech32 text.
pub struct Vault {
    pub recipient: Option<String>,
    pub identity: Option<String>,
}

impl Vault {
    /// An empty vault: no encryption.
    pub fn new() -> (r: Self)
        ensures
            r.recipient is None,
            r.identity is None,
    {
        Vault { recipient: None, identity: None }
    }

    /// Encryption is set up but the identity is not loaded: encrypted
    /// entries cannot be read.
    pub fn is_locked(&self) -> (r: bool)
        ensures
            r == (self.recipient is Some && self.identity is None),
    {
        self.recipient.is_some() && self.identity.is_none()
    }
}

impl Default for Vault {
    fn default() -> (r: Self)
        ensures
            r.recipient is None,
            r.identity is None,
    {
        Vault::new()
    }
}

/// The error `Crypto(prefix + detail)`.
fn crypto_error(prefix: &str, detail: String) -> (e: AppError)
    ensures
        e matches AppError::Crypto(m) && m@ == prefix@ + detail@,
{
    let mut m = prefix.to_owned();
    m.append(detail.as_str());
    AppError::Crypto(m)
}

/// The error `Crypto(message)`.
fn crypto_message(message: &str) -> (e: AppError)
    ensures
        e matches AppError::Crypto(m) && m@ == message@,
{
    AppError::Crypto(message.to_owned())
}

/// Checks an age recipient written as Bech32 text, and gives the text back.
pub fn parse_recipient(recipient: &str) -> (r: Result<String, AppError>)
    ensures
        r is Ok <==> recipient_parses(recipient@),
        r matches Ok(t) ==> t@ == recipient@,
        r matches Err(AppError::Crypto(m)) ==> m@.subrange(0, 17) == "recipient parse: "@,
        r matches Err(e) ==> e is Crypto,
{
    match recipient_from_str(recipient) {
        Ok(()) => Ok(recipient.to_owned()),
        Err(e) => {
            proof {
                reveal_strlit("recipient parse: ");
            }
            let err = crypto_error("recipient parse: ", e);
            proof {
                assert(err->Crypto_0@.subrange(0, 17) =~= "recipient parse: "@);
            }
            Err(err)
        },
    }
}

/// Base64 of an age file.
fn encode_ciphertext(ciphertext: &Vec<u8>) -> (r: String)
    requires
        ciphertext@.len() <= isize::MAX,
    ensures
        r@ == base64_standard(ciphertext@),
        base64_standard_decode(r@) == Some(ciphertext@),
{
    assert(base64_len(ciphertext@.len() as nat) <= usize::MAX) by (nonlinear_arith)
        requires
            ciphertext@.len() <= isize::MAX,
            usize::MAX == 2 * isize::MAX + 1,
            isize::MAX > 0,
    ;
    base64_encode(ciphertext.as_slice())
}

/// The plaintext that the base64 text `ciphertext` of an age file holds for
/// the x25519 identity written as `identity`: `None` where the text is no
/// base64, no age file, a passphrase-encrypted one, or does not decrypt.
pub open spec fn record_plaintext(ciphertext: Seq<char>, identity: Seq<char>) -> Option<Seq<u8>> {
    match base64_standard_decode(ciphertext) {
        Some(ct) => if age_passphrase_header(ct) == Some(false) {
            x25519_open(ct, identity)
        } else {
            None
        },
        None => None,
    }
}

/// `text` is the base64 of an age file that every identity whose recipient is
/// `recipient` decrypts to `plaintext`.
pub open spec fn sealed_to(text: Seq<char>, recipient: Seq<char>, plaintext: Seq<u8>) -> bool {
    forall|id: Seq<char>|
        identity_parses(id) && recipient_of(id) == recipient ==> #[trigger] record_plaintext(text, id) == Some(
            plaintext,
        )
}

/// The identity text that the base64 text `sealed` of a passphrase-encrypted
/// age file holds under `password`, once decrypted, read as UTF-8 and
/// trimmed; `None` where any of that fails.
pub open spec fn sealed_identity(sealed: Seq<char>, password: Seq<char>) -> Option<Seq<char>> {
    match base64_standard_decode(sealed) {
        Some(ct) => if age_passphrase_header(ct) == Some(true) {
            match scrypt_open(ct, password) {
                Some(pt) => if valid_utf8(pt) {
                    Some(trimmed(decode_utf8(pt)))
                } else {
                    None
                },
                None => None,
            }
        } else {
            None
        },
        None => None,
    }
}

/// What is sealed to a recipient, each identity of that recipient reads back.
pub proof fn lemma_sealed_opens(text: Seq<char>, identity: Seq<char>, plaintext: Seq<u8>)
    requires
        identity_parses(identity),
        sealed_to(text, recipient_of(identity), plaintext),
    ensures
        record_plaintext(text, identity) == Some(plaintext),
{
    assert(identity_parses(identity) && recipient_of(identity) == recipient_of(identity));
}

/// What `generate_config` stores, `unlock_identity` reads back: under the
/// same password the stored identity is the generated one.
pub proof fn lemma_generated_identity_unlocks(sealed: Seq<char>, identity: Seq<char>, password: Seq<char>)
    requires
        trimmed(identity) == identity,
        exists|ct: Seq<u8>|
            {
                &&& base64_standard_decode(sealed) == Some(ct)
                &&& age_passphrase_header(ct) == Some(true)
                &&& #[trigger] scrypt_open(ct, password) == Some(encode_utf8(identity))
            },
    ensures
        sealed_identity(sealed, password) == Some(identity),
{
    vstd::utf8::encode_utf8_valid_utf8(identity);
    vstd::utf8::encode_utf8_decode_utf8(identity);
}

/// `config` holds `identity` encrypted under `password`, with its recipient:
/// what `generate_config` makes.
pub open spec fn generated_config(config: EncryptionConfig, identity: Seq<char>, password: Seq<char>) -> bool {
    &&& identity_parses(identity)
    &&& trimmed(identity) == identity
    &&& config.recipient@ == recipient_of(identity)
    &&& recipient_parses(config.recipient@)
    &&& exists|ct: Seq<u8>|
        {
            &&& config.encrypted_identity@ == base64_standard(ct)
            &&& base64_standard_decode(config.encrypted_identity@) == Some(ct)
            &&& age_passphrase_header(ct) == Some(true)
            &&& #[trigger] scrypt_open(ct, password) == Some(encode_utf8(identity))
        }
}

/// Whatever `unlock_identity` opens, under the password it was made with, in
/// a configuration that `generate_config` made is the identity generated with
/// it, and its recipient is the one stored beside it.
pub proof fn lemma_unlock_gives_generated(
    config: EncryptionConfig,
    identity: Seq<char>,
    password: Seq<char>,
    unlocked: Seq<char>,
)
    requires
        generated_config(config, identity, password),
        Some(unlocked) == sealed_identity(config.encrypted_identity@, password),
    ensures
        unlocked == identity,
        recipient_of(unlocked) == config.recipient@,
{
    lemma_generated_identity_unlocks(config.encrypted_identity@, identity, password);
}

/// Makes a fresh identity and stores it encrypted under `password`, with its
/// recipient, in a new encryption configuration. Returns the configuration
/// and the identity's text.
pub fn generate_config(password: &str) -> (r: Result<(EncryptionConfig, String), AppError>)
    ensures
        r matches Ok((config, identity)) ==> generated_config(config, identity@, password@),
        r is Ok,
{
    let identity = generate_identity();
    let recipient = match identity_recipient(identity.as_str()) {
        Ok(t) => t,
        Err(e) => return Err(AppError::Crypto(e)),
    };
    let ciphertext = match scrypt_encrypt(identity.as_str().as_bytes(), password) {
        Ok(c) => c,
        Err(e) => return Err(AppError::Crypto(e)),
    };
    let config = EncryptionConfig { recipient, encrypted_identity: encode_ciphertext(&ciphertext) };
    Ok((config, identity))
}

/// Opens the stored identity with `password`, and returns its text.
pub fn unlock_identity(config: &EncryptionConfig, password: &str) -> (r: Result<String, AppError>)
    ensures
        ({
            let sealed = config.encrypted_identity@;
            let decoded = base64_standard_decode(sealed);
            let ct = decoded.unwrap();
            &&& decoded is None ==> (r matches Err(AppError::Crypto(m)) && m@.subrange(0, 8) == "base64: "@)
            &&& decoded is Some && age_passphrase_header(ct) is None ==> r is Err && r->Err_0 is Crypto
            &&& decoded is Some && age_passphrase_header(ct) == Some(false) ==> r is Err && r->Err_0 is Crypto
                && r->Err_0->Crypto_0@ == "encrypted identity is not passphrase-encrypted"@
            &&& decoded is Some && age_passphrase_header(ct) == Some(true) && scrypt_open(ct, password@) is None ==> r
                == Err::<String, AppError>(AppError::BadPassword)
            &&& r == Err::<String, AppError>(AppError::BadPassword) ==> decoded is Some && age_passphrase_header(ct)
                == Some(true)
            &&& r matches Ok(identity) ==> Some(identity@) == sealed_identity(sealed, password@) && identity_parses(
                identity@,
            )
            &&& r matches Err(e) ==> e is Crypto || e is BadPassword
        }),
{
    let ciphertext = match base64_decode(config.encrypted_identity.as_str()) {
        Ok(c) => c,
        Err(e) => {
            proof {
                reveal_strlit("base64: ");
            }
            let err = crypto_error("base64: ", e);
            proof {
                assert(err->Crypto_0@.subrange(0, 8) =~= "base64: "@);
            }
            return Err(err);
        },
    };
    match age_header(ciphertext.as_slice()) {
        Ok(true) => {},
        Ok(false) => return Err(crypto_message("encrypted identity is not passphrase-encrypted")),
        Err(e) => return Err(AppError::Crypto(e)),
    }
    let plaintext = match scrypt_decrypt(ciphertext.as_slice(), password) {
        Ok(p) => p,
        Err(_) => return Err(AppError::BadPassword),
    };
    identity_from_plaintext(plaintext)
}

/// Reads the identity out of the decrypted identity file: the UTF-8 text,
/// trimmed, which must be an age identity. The text is wiped afterwards.
pub fn identity_from_plaintext(plaintext: Vec<u8>) -> (r: Result<String, AppError>)
    ensures
        r is Ok <==> valid_utf8(plaintext@) && identity_parses(trimmed(decode_utf8(plaintext@))),
        r matches Ok(id) ==> id@ == trimmed(decode_utf8(plaintext@)),
        !valid_utf8(plaintext@) ==> r is Err && r->Err_0 is Crypto,
        valid_utf8(plaintext@) && !identity_parses(trimmed(decode_utf8(plaintext@))) ==> r is Err && r->Err_0 is Crypto
            && r->Err_0->Crypto_0@.subrange(0, 16) == "identity parse: "@,
{
    let ghost pt = plaintext@;
    let mut text = match utf8_text(plaintext) {
        Ok(s) => s,
        Err(e) => return Err(AppError::Crypto(e)),
    };
    let identity = trim(text.as_str()).to_owned();
    wipe_string(&mut text);
    match identity_from_str(identity.as_str()) {
        Ok(()) => Ok(identity),
        Err(e) => {
            proof {
                reveal_strlit("identity parse: ");
            }
            let err = crypto_error("identity parse: ", e);
            proof {
                assert(err->Crypto_0@.subrange(0, 16) =~= "identity parse: "@);
            }
            Err(err)
        },
    }
}

impl EncryptedRecord {
    /// Decrypts the record with the identity written as `identity` and
    /// returns the serialized payload.
    pub fn decrypt_with_identity(&self, identity: &str) -> (r: Result<Vec<u8>, AppError>)
        ensures
            match record_plaintext(self.ciphertext@, identity@) {
                Some(plaintext) => r matches Ok(b) && b@ == plaintext,
                None => r matches Err(AppError::Crypto(_)),
            },
            base64_standard_decode(self.ciphertext@) is None ==> (r matches Err(AppError::Crypto(m)) && m@.subrange(
                0,
                8,
            ) == "base64: "@),
            base64_standard_decode(self.ciphertext@) matches Some(ct) && age_passphrase_header(ct) == Some(true)
                ==> (r matches Err(AppError::Crypto(m)) && m@ == "ciphertext is passphrase-encrypted, not recipient-encrypted"@),
    {
        let ciphertext = match base64_decode(self.ciphertext.as_str()) {
            Ok(c) => c,
            Err(e) => {
                proof {
                    reveal_strlit("base64: ");
                }
                let err = crypto_error("base64: ", e);
                proof {
                    assert(err->Crypto_0@.subrange(0, 8) =~= "base64: "@);
                }
                return Err(err);
            },
        };
        match age_header(ciphertext.as_slice()) {
            Ok(false) => {},
            Ok(true) => {
                return Err(crypto_message("ciphertext is passphrase-encrypted, not recipient-encrypted"));
            },
            Err(e) => return Err(AppError::Crypto(e)),
        }
        match x25519_decrypt(ciphertext.as_slice(), identity) {
            Ok(plaintext) => Ok(plaintext),
            Err(e) => Err(AppError::Crypto(e)),
        }
    }
}

impl PlaintextPayload {
    /// Encrypts a serialized payload to the recipient written as `recipient`
    /// and returns the age file in base64, which every identity of that
    /// recipient decrypts back to `serialized`. A recipient with a low-order
    /// key is refused, where age itself would panic.
    pub fn encrypt_to_recipient(serialized: &[u8], recipient: &str) -> (r: Result<String, AppError>)
        ensures
            r matches Ok(text) ==> sealed_to(text@, recipient@, serialized@) && exists|ct: Seq<u8>|
                text@ == base64_standard(ct),
            r is Ok <==> recipient_parses(recipient@) && !low_order_recipient(recipient@),
            low_order_recipient(recipient@) ==> r is Err && r->Err_0 is Crypto && r->Err_0->Crypto_0@
                == "recipient is a low-order key"@,
            r matches Err(e) ==> e is Crypto,
    {
        if is_low_order_recipient(recipient) {
            return Err(crypto_message("recipient is a low-order key"));
        }
        let ciphertext = match x25519_encrypt(serialized, recipient) {
            Ok(c) => c,
            Err(e) => return Err(AppError::Crypto(e)),
        };
        let text = encode_ciphertext(&ciphertext);
        proof {
            assert forall|id: Seq<char>| identity_parses(id) && recipient_of(id) == recipient@ implies #[trigger] record_plaintext(
                text@,
                id,
            ) == Some(serialized@) by {
                assert(x25519_open(ciphertext@, id) == Some(serialized@));
            }
        }
        Ok(text)
    }
}

/// The object an encrypted record holds: the payload, under the payload's id
/// and date where it carries them and the record's otherwise.
pub open spec fn object_of_payload(
    id: Option<u32>,
    date: Option<u64>,
    content: ObjectContent,
    content_format: ObjectFormat,
    thumbnail: Option<Vec<u8>>,
    formatted_content: Option<String>,
    record: RecordView,
) -> ObjectView {
    ObjectView {
        id: match id {
            Some(i) => i,
            None => record.id,
        },
        content: content@,
        content_format: content_format@,
        date: match date {
            Some(d) => d,
            None => record.date,
        },
        thumbnail: opt_bytes_view(thumbnail),
        formatted_content: opt_string_view(formatted_content),
    }
}

/// The object a decrypted `payload` of `record` holds.
pub open spec fn payload_object(payload: PlaintextPayload, record: RecordView) -> ObjectView {
    object_of_payload(
        payload.id,
        payload.date,
        payload.content,
        payload.content_format,
        payload.thumbnail,
        payload.formatted_content,
        record,
    )
}

/// Whether `outcome` is what reading the encrypted `record` with the
/// identity written as `identity` gives: what `parse` returns on the
/// record's plaintext, or a `Crypto` error where the record does not decrypt.
pub open spec fn read_outcome<F: Fn(&[u8]) -> Result<PlaintextPayload, AppError>>(
    record: RecordView,
    identity: Seq<char>,
    parse: F,
    outcome: Result<PlaintextPayload, AppError>,
) -> bool {
    match record_plaintext(record.ciphertext, identity) {
        Some(pt) => exists|b: &[u8]| b@ == pt && #[trigger] parse.ensures((b,), outcome),
        None => outcome matches Err(AppError::Crypto(_)),
    }
}

/// Whether `p` is the payload that stores `o`, with its id and date.
pub open spec fn payload_of_object(p: PlaintextPayload, o: ObjectView) -> bool {
    &&& p.id == Some(o.id)
    &&& p.date == Some(o.date)
    &&& p.content@ == o.content
    &&& p.content_format@ == o.content_format
    &&& opt_bytes_view(p.thumbnail) == o.thumbnail
    &&& opt_string_view(p.formatted_content) == o.formatted_content
}

impl PlaintextPayload {
    /// The payload that stores `object`, with its id and date.
    pub fn from_object(object: &CopiedObject) -> (r: Self)
        ensures
            payload_of_object(r, object@),
            r.id == Some(object.id),
            r.date == Some(object.date),
            r.content@ == object.content@,
            r.content_format@ == object.content_format@,
            opt_bytes_view(r.thumbnail) == opt_bytes_view(object.thumbnail),
            opt_string_view(r.formatted_content) == opt_string_view(object.formatted_content),
    {
        let copy = object.clone();
        PlaintextPayload {
            id: Some(copy.id),
            date: Some(copy.date),
            content: copy.content,
            content_format: copy.content_format,
            thumbnail: copy.thumbnail,
            formatted_content: copy.formatted_content,
        }
    }

    /// The object this payload of `record` holds.
    pub fn into_object(self, record: &EncryptedRecord) -> (r: CopiedObject)
        ensures
            r@ == object_of_payload(
                self.id,
                self.date,
                self.content,
                self.content_format,
                self.thumbnail,
                self.formatted_content,
                record@,
            ),
    {
        let id = self.authoritative_id(record);
        let date = self.authoritative_date(record);
        CopiedObject {
            id,
            date,
            content: self.content,
            content_format: self.content_format,
            thumbnail: self.thumbnail,
            formatted_content: self.formatted_content,
        }
    }

    /// The id and date the record should be listed under, when they differ
    /// from the ones it is listed under.
    pub fn repair_of(&self, record: &EncryptedRecord) -> (r: Option<(u32, u64)>)
        ensures
            ({
                let id = match self.id {
                    Some(i) => i,
                    None => record.id,
                };
                let date = match self.date {
                    Some(d) => d,
                    None => record.date,
                };
                r == if id != record.id || date != record.date {
                    Some((id, date))
                } else {
                    None
                }
            }),
    {
        let id = self.authoritative_id(record);
        let date = self.authoritative_date(record);
        if id != record.id || date != record.date {
            Some((id, date))
        } else {
            None
        }
    }

    /// Wipes the payload, its thumbnail and its formatted content.
    pub fn zeroize(&mut self)
        ensures
            final(self).content@ == wiped_content(old(self).content@),
            final(self).id == old(self).id,
            final(self).date == old(self).date,
    {
        self.content.zeroize();
        match &mut self.thumbnail {
            Some(thumbnail) => wipe_bytes(thumbnail),
            None => {},
        }
        match &mut self.formatted_content {
            Some(formatted) => wipe_string(formatted),
            None => {},
        }
    }
}

/// The encrypted entry that stores `object` under `ciphertext`.
pub fn sealed_entry(object: &CopiedObject, ciphertext: String) -> (r: HistoryEntry)
    ensures
        r@ == EntryView::Encrypted(RecordView { id: object.id, date: object.date, ciphertext: ciphertext@ }),
{
    HistoryEntry::Encrypted(EncryptedRecord { id: object.id, date: object.date, ciphertext })
}

impl EncryptedRecord {
    /// Wipes the ciphertext and resets the id and date.
    pub fn zeroize(&mut self)
        ensures
            final(self)@ == (RecordView { id: 0, date: 0, ciphertext: Seq::empty() }),
    {
        wipe_string(&mut self.ciphertext);
        self.id = 0;
        self.date = 0;
    }
}

impl HistoryEntry {
    /// Wipes the entry's payload.
    pub fn zeroize(&mut self)
        ensures
            final(self)@ == match old(self)@ {
                EntryView::Plain(o) => EntryView::Plain(wiped_object(o)),
                EntryView::Encrypted(_) => EntryView::Encrypted(
                    RecordView { id: 0, date: 0, ciphertext: Seq::empty() },
                ),
            },
    {
        match self {
            HistoryEntry::Plain(o) => o.zeroize(),
            HistoryEntry::Encrypted(e) => e.zeroize(),
        }
    }
}


impl Clone for EncryptedRecord {
    fn clone(&self) -> (r: Self)
        ensures
            r@ == self@,
    {
        EncryptedRecord { id: self.id, date: self.date, ciphertext: self.ciphertext.clone() }
    }
}

impl Clone for HistoryEntry {
    fn clone(&self) -> (r: Self)
        ensures
            r@ == self@,
    {
        match self {
            HistoryEntry::Encrypted(e) => HistoryEntry::Encrypted(e.clone()),
            HistoryEntry::Plain(o) => HistoryEntry::Plain(o.clone()),
        }
    }
}

} // verus!
