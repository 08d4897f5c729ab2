//! Full-text search over the history: query terms, and whether a payload
//! holds all of them.
use vstd::prelude::*;
use vstd::utf8::encode_utf8;

use crate::cache::DecryptedCache;
use crate::crypto::{entry_id, read_outcome, EntryView, HistoryEntry, PlaintextPayload, Vault};
use crate::history::entries_view;
use crate::model::{strings_view, wipe_bytes, AppError, ContentView, ObjectContent, ObjectView};
use crate::recency::lookup;
use crate::text::whitespace_words;

verus! {

/// `str::to_lowercase`: the Unicode lowercase mapping of a string.
pub uninterp spec fn lowercase(s: Seq<char>) -> Seq<char>;


/// `str::to_lowercase`.
#[verifier::external_body]
fn to_lowercase(s: &str) -> (r: String)
    ensures
        r@ == lowercase(s@),
{
    s.to_lowercase()
}

/// `str::split_whitespace`, each word as an owned string.
#[verifier::external_body]
fn split_whitespace(s: &str) -> (r: Vec<String>)
    ensures
        strings_view(r@) == whitespace_words(s@),
{
    s.split_whitespace().map(str::to_string).collect()
}

/// `needle` occurs in `hay` as a contiguous run.
pub open spec fn contains_seq(hay: Seq<u8>, needle: Seq<u8>) -> bool {
    exists|i: int| 0 <= i && i + needle.len() <= hay.len() && #[trigger] hay.subrange(i, i + needle.len()) == needle
}

/// The strings of `parts` with `sep` between consecutive ones.
pub open spec fn join(parts: Seq<Seq<char>>, sep: Seq<char>) -> Seq<char>
    decreases parts.len(),
{
    if parts.len() == 0 {
        Seq::empty()
    } else if parts.len() == 1 {
        parts[0]
    } else {
        join(parts.drop_last(), sep) + sep + parts.last()
    }
}

/// The search terms of a query: its lowercase words.
pub open spec fn search_terms_spec(query: Seq<char>) -> Seq<Seq<char>> {
    whitespace_words(lowercase(query))
}

/// Every term occurs in the lowercase form of `text`.
pub open spec fn text_has_all(text: Seq<char>, terms: Seq<Seq<char>>) -> bool {
    forall|k: int| 0 <= k < terms.len() ==> contains_seq(encode_utf8(lowercase(text)), encode_utf8(#[trigger] terms[k]))
}

/// Whether a payload matches all terms: texts by their content, file lists by
/// their paths joined by newlines; images and other data never match.
pub open spec fn content_matches(content: ContentView, terms: Seq<Seq<char>>) -> bool {
    match content {
        ContentView::Text(s) => text_has_all(s, terms),
        ContentView::Html(s) => text_has_all(s, terms),
        ContentView::Rtf(s) => text_has_all(s, terms),
        ContentView::Files(files) => text_has_all(join(files, seq!['\n']), terms),
        ContentView::Image(_) => false,
        ContentView::Other(_, _) => false,
    }
}

/// Images and other binary data never match a search, whatever its terms;
/// a payload that matches is text, RTF, HTML or a file list whose lowercase
/// text (the paths joined by newlines) holds every term.
pub proof fn lemma_match_needs_text(content: ContentView, terms: Seq<Seq<char>>, bytes: Seq<u8>, name: Seq<char>)
    ensures
        !content_matches(ContentView::Image(bytes), terms),
        !content_matches(ContentView::Other(name, bytes), terms),
        content_matches(content, terms) ==> exists|text: Seq<char>|
            #![trigger lowercase(text)]
            {
                &&& (content == ContentView::Text(text) || content == ContentView::Rtf(text) || content
                    == ContentView::Html(text) || (content matches ContentView::Files(fs) && text == join(
                    fs,
                    seq!['\n'],
                )))
                &&& forall|k: int|
                    0 <= k < terms.len() ==> #[trigger] contains_seq(encode_utf8(lowercase(text)), encode_utf8(terms[k]))
            },
{
    let t = match content {
        ContentView::Text(t) => t,
        ContentView::Rtf(t) => t,
        ContentView::Html(t) => t,
        ContentView::Files(fs) => join(fs, seq!['\n']),
        _ => Seq::empty(),
    };
    if content_matches(content, terms) {
        assert(text_has_all(t, terms));
        assert(lowercase(t) == lowercase(t));
    }
}

/// `needle` occurs in `hay` exactly when `hay` is some bytes, then
/// `needle`, then some more bytes.
pub proof fn lemma_contains_seq(hay: Seq<u8>, needle: Seq<u8>)
    ensures
        contains_seq(hay, needle) <==> exists|a: Seq<u8>, b: Seq<u8>| hay == a + needle + b,
{
    if contains_seq(hay, needle) {
        let i = choose|i: int| 0 <= i && i + needle.len() <= hay.len() && #[trigger] hay.subrange(i, i + needle.len()) == needle;
        let a = hay.subrange(0, i);
        let b = hay.subrange(i + needle.len(), hay.len() as int);
        assert(hay =~= a + needle + b);
    }
    if exists|a: Seq<u8>, b: Seq<u8>| hay == a + needle + b {
        let (a, b) = choose|a: Seq<u8>, b: Seq<u8>| hay == a + needle + b;
        assert(hay.subrange(a.len() as int, a.len() + needle.len() as int) =~= needle);
    }
}

/// A file list is searched as its paths with a newline between each two:
/// one path as it is, and one more path after a newline.
pub proof fn lemma_join_paths(parts: Seq<Seq<char>>, p: Seq<char>, sep: Seq<char>)
    ensures
        join(Seq::<Seq<char>>::empty(), sep) == Seq::<char>::empty(),
        join(seq![p], sep) == p,
        parts.len() > 0 ==> join(parts.push(p), sep) == join(parts, sep) + sep + p,
{
    assert(seq![p].len() == 1);
    if parts.len() > 0 {
        assert(parts.push(p).drop_last() =~= parts);
    }
}

/// A text payload (text, RTF or HTML alike) matches exactly when its
/// lowercase form holds every term.
pub proof fn lemma_text_match(text: Seq<char>, terms: Seq<Seq<char>>)
    ensures
        content_matches(ContentView::Text(text), terms) <==> forall|k: int|
            0 <= k < terms.len() ==> #[trigger] contains_seq(encode_utf8(lowercase(text)), encode_utf8(terms[k])),
        content_matches(ContentView::Rtf(text), terms) == content_matches(ContentView::Text(text), terms),
        content_matches(ContentView::Html(text), terms) == content_matches(ContentView::Text(text), terms),
{
}

/// Whether `needle` occurs in `hay`.
fn bytes_contain(hay: &[u8], needle: &[u8]) -> (r: bool)
    ensures
        r == contains_seq(hay@, needle@),
{
    let n = hay.len();
    let m = needle.len();
    if m == 0 {
        assert(hay@.subrange(0int, 0int + needle@.len()) =~= needle@);
        return true;
    }
    let mut i: usize = 0;
    while m <= n - i && i <= n
        invariant
            n == hay@.len(),
            m == needle@.len(),
            m > 0,
            i <= n,
            forall|p: int| 0 <= p < i ==> #[trigger] hay@.subrange(p, p + m) != needle@,
        decreases n - i,
    {
        let mut j: usize = 0;
        let mut same = true;
        while j < m
            invariant
                n == hay@.len(),
                m == needle@.len(),
                i + m <= n,
                j <= m,
                same == forall|q: int| 0 <= q < j ==> hay@[i + q] == needle@[q],
            decreases m - j,
        {
            if hay[i + j] != needle[j] {
                same = false;
            }
            j = j + 1;
        }
        if same {
            assert(hay@.subrange(i as int, i + m) =~= needle@);
            return true;
        }
        proof {
            let k = choose|q: int| 0 <= q < m && hay@[i + q] != needle@[q];
            assert(hay@.subrange(i as int, i + m)[k] != needle@[k]);
        }
        i = i + 1;
    }
    proof {
        if contains_seq(hay@, needle@) {
            let p = choose|p: int| 0 <= p && p + needle@.len() <= hay@.len()
                && #[trigger] hay@.subrange(p, p + needle@.len()) == needle@;
            assert(hay@.subrange(p, p + m) != needle@);
        }
    }
    false
}

/// The strings of `parts` joined by `sep`.
fn join_strings(parts: &Vec<String>, sep: &str) -> (r: String)
    ensures
        r@ == join(strings_view(parts@), sep@),
{
    let ghost v = strings_view(parts@);
    let mut out = String::new();
    let mut i: usize = 0;
    while i < parts.len()
        invariant
            i <= parts@.len(),
            v == strings_view(parts@),
            out@ == join(v.subrange(0, i as int), sep@),
        decreases parts@.len() - i,
    {
        proof {
            assert(v.subrange(0, i as int + 1).drop_last() =~= v.subrange(0, i as int));
        }
        if i != 0 {
            out.append(sep);
        }
        out.append(parts[i].as_str());
        proof {
            if i == 0 {
                assert(out@ =~= v.subrange(0, 1)[0]);
            }
        }
        i = i + 1;
    }
    proof {
        assert(v.subrange(0, parts@.len() as int) =~= v);
    }
    out
}

/// The search terms of a query: its words, in lowercase.
pub fn search_terms(query: &str) -> (r: Vec<String>)
    ensures
        strings_view(r@) == search_terms_spec(query@),
{
    let lower = to_lowercase(query);
    split_whitespace(lower.as_str())
}

/// Whether every term occurs in the lowercase form of `text`.
fn text_contains_all(text: &str, terms: &Vec<String>) -> (r: bool)
    ensures
        r == text_has_all(text@, strings_view(terms@)),
{
    let lower = to_lowercase(text);
    let hay = lower.as_str().as_bytes();
    let mut k: usize = 0;
    while k < terms.len()
        invariant
            k <= terms@.len(),
            hay@ == encode_utf8(lowercase(text@)),
            forall|q: int| 0 <= q < k ==> contains_seq(hay@, encode_utf8(#[trigger] strings_view(terms@)[q])),
        decreases terms@.len() - k,
    {
        if !bytes_contain(hay, terms[k].as_str().as_bytes()) {
            assert(!contains_seq(hay@, encode_utf8(strings_view(terms@)[k as int])));
            return false;
        }
        k = k + 1;
    }
    true
}

/// Whether a payload holds every search term.
pub fn object_contains(content: &ObjectContent, terms: &Vec<String>) -> (r: bool)
    ensures
        r == content_matches(content@, strings_view(terms@)),
{
    match content {
        ObjectContent::Text(s) => text_contains_all(s.as_str(), terms),
        ObjectContent::Html(s) => text_contains_all(s.as_str(), terms),
        ObjectContent::Rtf(s) => text_contains_all(s.as_str(), terms),
        ObjectContent::Files(files) => {
            let newline = "\n";
            proof {
                reveal_strlit("\n");
                assert(newline@ =~= seq!['\n']);
            }
            let joined = join_strings(files, newline);
            text_contains_all(joined.as_str(), terms)
        },
        ObjectContent::Image(_) => false,
        ObjectContent::Other(_, _) => false,
    }
}

/// The ids of all entries, in order: the result of a search with no terms.
pub fn all_ids(history: &Vec<HistoryEntry>) -> (r: Vec<u32>)
    ensures
        r@ == entries_view(history@).map_values(|e| entry_id(e)),
{
    let mut ids: Vec<u32> = Vec::new();
    let mut i: usize = 0;
    while i < history.len()
        invariant
            i <= history@.len(),
            ids@ == entries_view(history@).subrange(0, i as int).map_values(|e| entry_id(e)),
        decreases history@.len() - i,
    {
        ids.push(history[i].id());
        proof {
            assert(ids@ =~= entries_view(history@).subrange(0, i as int + 1).map_values(|e| entry_id(e)));
        }
        i = i + 1;
    }
    proof {
        assert(entries_view(history@).subrange(0, history@.len() as int) =~= entries_view(history@));
    }
    ids
}

/// Whether `matched` is what search finds for entry `e`: a plain entry is
/// searched in its content; an encrypted one in the object cached under its
/// id, and when none is cached, in the payload that `parse` reads from the
/// record's plaintext under `identity`.
pub open spec fn entry_matches<F: Fn(&[u8]) -> Result<PlaintextPayload, AppError>>(
    e: EntryView,
    matched: bool,
    cached: Seq<(u32, ObjectView)>,
    terms: Seq<Seq<char>>,
    identity: Option<Seq<char>>,
    parse: F,
) -> bool {
    match e {
        EntryView::Plain(o) => matched == content_matches(o.content, terms),
        EntryView::Encrypted(r) => match lookup(cached, r.id) {
            Some(o) => matched == content_matches(o.content, terms),
            None => identity matches Some(id) && exists|p: PlaintextPayload|
                #[trigger] read_outcome(r, id, parse, Ok(p)) && matched == content_matches(p.content@, terms),
        },
    }
}

/// Whether `e` is an error that searching entry `h` can end with: `Locked`
/// for an uncached encrypted entry without an identity, else the error of
/// reading its record.
pub open spec fn entry_search_error<F: Fn(&[u8]) -> Result<PlaintextPayload, AppError>>(
    h: EntryView,
    cached: Seq<(u32, ObjectView)>,
    identity: Option<Seq<char>>,
    parse: F,
    e: AppError,
) -> bool {
    h matches EntryView::Encrypted(r) && lookup(cached, r.id) is None && match identity {
        None => e is Locked,
        Some(id) => read_outcome(r, id, parse, Err(e)),
    }
}

/// The identity text a vault holds.
pub open spec fn vault_identity(vault: Vault) -> Option<Seq<char>> {
    match vault.identity {
        Some(t) => Some(t@),
        None => None,
    }
}

/// The ids of the entries of `h` whose flag in `m` is set, in order.
pub open spec fn flagged_ids(h: Seq<EntryView>, m: Seq<bool>) -> Seq<u32>
    decreases h.len(),
{
    if h.len() == 0 {
        Seq::empty()
    } else {
        let rest = flagged_ids(h.drop_last(), m);
        if m[h.len() - 1] {
            rest.push(entry_id(h.last()))
        } else {
            rest
        }
    }
}

/// The ids a search returns, `flagged_ids(h, m)`, are the ids of the flagged
/// positions of `h`, in order: every flagged entry once, nothing else.
pub proof fn lemma_flagged_ids_in_order(h: Seq<EntryView>, m: Seq<bool>)
    ensures
        flagged_ids(h, m) == Seq::new(h.len(), |i: int| i).filter(|i: int| m[i]).map_values(|i: int| entry_id(h[i])),
    decreases h.len(),
{
    reveal(Seq::filter);
    let idx = Seq::new(h.len(), |i: int| i);
    if h.len() > 0 {
        let n = h.len() - 1;
        let h0 = h.drop_last();
        lemma_flagged_ids_in_order(h0, m);
        let idx0 = Seq::new(h0.len(), |i: int| i);
        assert(idx.drop_last() =~= idx0);
        assert(idx.last() == n);
        let f0 = idx0.filter(|i: int| m[i]);
        assert forall|k: int| 0 <= k < f0.len() implies 0 <= #[trigger] f0[k] < h0.len() by {
            assert(f0.contains(f0[k]));
            idx0.lemma_filter_contains_rev(|i: int| m[i], f0[k]);
        }
        assert(f0.map_values(|i: int| entry_id(h0[i])) =~= f0.map_values(|i: int| entry_id(h[i])));
        if m[n] {
            assert(idx.filter(|i: int| m[i]) == f0.push(n));
            assert(f0.push(n).map_values(|i: int| entry_id(h[i])) =~= f0.map_values(|i: int| entry_id(h[i])).push(
                entry_id(h.last()),
            ));
        } else {
            assert(idx.filter(|i: int| m[i]) == f0);
        }
    } else {
        assert(idx.filter(|i: int| m[i]) =~= Seq::<int>::empty());
        assert(flagged_ids(h, m) =~= Seq::<u32>::empty());
    }
}

/// Only the flags of the entries of `h` count.
proof fn lemma_flagged_ids_prefix(h: Seq<EntryView>, m: Seq<bool>, m2: Seq<bool>)
    requires
        forall|j: int| 0 <= j < h.len() ==> m[j] == m2[j],
    ensures
        flagged_ids(h, m) == flagged_ids(h, m2),
    decreases h.len(),
{
    if h.len() > 0 {
        lemma_flagged_ids_prefix(h.drop_last(), m, m2);
    }
}

/// Searches the history for `query`: the ids, in order, of the entries whose
/// payload holds every term of the query. A query with no terms finds every
/// entry. Encrypted entries are searched in the cached object where there is
/// one, and otherwise decrypted with the vault's identity and read back with
/// `parse`; the decrypted copies are wiped after the search.
pub fn search_entries<F>(
    history: &Vec<HistoryEntry>,
    query: &str,
    vault: &Vault,
    cache: &mut DecryptedCache,
    parse: F,
) -> (r: Result<Vec<u32>, AppError>) where F: Fn(&[u8]) -> Result<PlaintextPayload, AppError>
    requires
        old(cache).wf(),
        forall|b: &[u8]| #[trigger] parse.requires((b,)),
    ensures
        final(cache).wf(),
        forall|x: u32| #[trigger] lookup(final(cache).entries(), x) == lookup(old(cache).entries(), x),
        search_terms_spec(query@).len() == 0 ==> {
            &&& r matches Ok(ids) && ids@ == entries_view(history@).map_values(|e| entry_id(e))
            &&& final(cache).entries() == old(cache).entries()
        },
        search_terms_spec(query@).len() > 0 && vault.recipient is Some && vault.identity is None ==> r == Err::<
            Vec<u32>,
            AppError,
        >(AppError::Locked),
        search_terms_spec(query@).len() > 0 ==> (r matches Ok(ids) ==> exists|m: Seq<bool>|
            {
                &&& m.len() == history.len()
                &&& ids@ == flagged_ids(entries_view(history@), m)
                &&& forall|i: int|
                    0 <= i < history.len() ==> entry_matches(
                        #[trigger] history@[i]@,
                        m[i],
                        old(cache).entries(),
                        search_terms_spec(query@),
                        vault_identity(*vault),
                        parse,
                    )
            }),
        r matches Err(e) ==> (e == AppError::Locked && vault.recipient is Some && vault.identity is None) || exists|i: int|
            0 <= i < history.len() && entry_search_error(
                #[trigger] history@[i]@,
                old(cache).entries(),
                vault_identity(*vault),
                parse,
                e,
            ),
        !(vault.recipient is Some && vault.identity is None) && (forall|i: int|
            0 <= i < history.len() ==> (#[trigger] history@[i]) is Plain) ==> r is Ok,
{
    let terms = search_terms(query);
    if terms.len() == 0 {
        return Ok(all_ids(history));
    }
    if vault.is_locked() {
        return Err(AppError::Locked);
    }
    let ghost t = search_terms_spec(query@);
    let ghost c0 = cache.entries();
    let ghost h = entries_view(history@);
    let ghost mut m: Seq<bool> = Seq::empty();
    let mut ids: Vec<u32> = Vec::new();
    let mut i: usize = 0;
    while i < history.len()
        invariant
            i <= history@.len(),
            h == entries_view(history@),
            strings_view(terms@) == t,
            t.len() > 0,
            t == search_terms_spec(query@),
            c0 == old(cache).entries(),
            cache.wf(),
            forall|x: u32| #[trigger] lookup(cache.entries(), x) == lookup(c0, x),
            m.len() == i,
            ids@ == flagged_ids(h.subrange(0, i as int), m),
            forall|j: int| 0 <= j < i ==> entry_matches(#[trigger] history@[j]@, m[j], c0, t, vault_identity(*vault), parse),
            forall|b: &[u8]| #[trigger] parse.requires((b,)),
            !(vault.recipient is Some && vault.identity is None),
        decreases history@.len() - i,
    {
        let entry = &history[i];
        let matched = match entry {
            HistoryEntry::Plain(o) => object_contains(&o.content, &terms),
            HistoryEntry::Encrypted(e) => {
                let ghost before = *cache;
                let hit = cache.get(e.id);
                proof {
                    assert forall|x: u32| #[trigger] lookup(cache.entries(), x) == lookup(c0, x) by {
                        crate::cache::lemma_object_get_keeps_contents(&before, e.id, x);
                    }
                }
                match hit {
                    Some(mut obj) => {
                        let found = object_contains(&obj.content, &terms);
                        obj.zeroize();
                        found
                    },
                    None => {
                        assert(lookup(c0, e.id) is None);
                        let ghost hi = history@[i as int]@;
                        let identity = match &vault.identity {
                            Some(id) => id,
                            None => {
                                assert(entry_search_error(hi, c0, vault_identity(*vault), parse, AppError::Locked));
                                return Err(AppError::Locked);
                            },
                        };
                        let mut bytes = match e.decrypt_with_identity(identity.as_str()) {
                            Ok(b) => b,
                            Err(err) => {
                                assert(entry_search_error(hi, c0, vault_identity(*vault), parse, err));
                                return Err(err);
                            },
                        };
                        let parsed = parse(bytes.as_slice());
                        wipe_bytes(&mut bytes);
                        match parsed {
                            Ok(mut payload) => {
                                assert(read_outcome(e@, identity@, parse, Ok(payload)));
                                let found = object_contains(&payload.content, &terms);
                                let ghost p0 = payload;
                                payload.zeroize();
                                assert(found == content_matches(p0.content@, t));
                                found
                            },
                            Err(err) => {
                                assert(read_outcome(e@, identity@, parse, Err(err)));
                                assert(entry_search_error(hi, c0, vault_identity(*vault), parse, err));
                                return Err(err);
                            },
                        }
                    },
                }
            },
        };
        proof {
            let m_before = m;
            m = m.push(matched);
            lemma_flagged_ids_prefix(h.subrange(0, i as int), m_before, m);
            assert(h.subrange(0, i as int + 1).drop_last() =~= h.subrange(0, i as int));
            assert(h.subrange(0, i as int + 1).last() == history@[i as int]@);
        }
        if matched {
            ids.push(entry.id());
        }
        i = i + 1;
    }
    proof {
        assert(h.subrange(0, h.len() as int) =~= h);
    }
    Ok(ids)
}

} // verus!
