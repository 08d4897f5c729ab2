//! The history table's logic: the kind shown for each entry, its sorting and
//! its filtering.
use std::collections::HashSet;
use vstd::prelude::*;
use vstd::utf8::encode_utf8;

use crate::crypto::{base64_encode, base64_len, base64_standard};
use crate::history::{decimal, decimal_string};
use crate::model::{
    copy_strings, strings_view, ContentView, CopiedObject, CopiedObjectPreview, FormatView, ObjectContent,
    ObjectFormat, ObjectPreviewView, PreviewContent, PreviewView,
};

verus! {

broadcast use vstd::std_specs::hash::group_hash_axioms;

/// The screen shown.
#[derive(Clone, Copy, Debug, PartialEq, Eq, Structural)]
pub enum Page {
    Home,
    Settings,
}

/// What the history table is sorted by.
#[derive(Clone, Copy, Debug, PartialEq, Eq, Structural)]
pub enum SortBy {
    Date,
    Type,
}

/// The direction of the sort.
#[derive(Clone, Copy, Debug, PartialEq, Eq, Structural)]
pub enum SortOrder {
    Ascending,
    Descending,
}

/// Size of the loading spinner.
#[derive(Clone, Copy, Debug, PartialEq, Eq, Structural)]
pub enum ComponentSize {
    Small,
    Medium,
    Big,
}

/// The format filters offered, as (kind, label).
pub const FORMAT_CHIPS: [(&'static str, &'static str); 6] = [
    ("text", "Text"),
    ("rtf", "RTF"),
    ("html", "HTML"),
    ("image", "Image"),
    ("files", "Files"),
    ("other", "Other"),
];

/// The kind name of a format.
pub open spec fn kind_name(f: FormatView) -> Seq<char> {
    match f {
        FormatView::Text => "text"@,
        FormatView::Rtf => "rtf"@,
        FormatView::Html => "html"@,
        FormatView::Image => "image"@,
        FormatView::Files => "files"@,
        FormatView::Other(_) => "other"@,
    }
}

/// The kind name shown for an entry.
pub fn format_kind(item: &CopiedObjectPreview) -> (r: &'static str)
    ensures
        r@ == kind_name(item.content_format@),
{
    match item.content_format {
        ObjectFormat::Text => "text",
        ObjectFormat::Rtf => "rtf",
        ObjectFormat::Html => "html",
        ObjectFormat::Image => "image",
        ObjectFormat::Files => "files",
        ObjectFormat::Other(_) => "other",
    }
}

/// Position of a format's variant in the declaration order.
pub open spec fn format_rank(f: FormatView) -> int {
    match f {
        FormatView::Text => 0,
        FormatView::Rtf => 1,
        FormatView::Html => 2,
        FormatView::Image => 3,
        FormatView::Files => 4,
        FormatView::Other(_) => 5,
    }
}

/// Lexicographic order on byte strings, as `[u8]` orders them.
pub open spec fn bytes_le(a: Seq<u8>, b: Seq<u8>) -> bool
    decreases a.len(),
{
    if a.len() == 0 {
        true
    } else if b.len() == 0 {
        false
    } else if a[0] != b[0] {
        a[0] < b[0]
    } else {
        bytes_le(a.drop_first(), b.drop_first())
    }
}

/// The order of formats: by variant, then the names of other formats as
/// strings are ordered (by their bytes).
pub open spec fn format_le(a: FormatView, b: FormatView) -> bool {
    if format_rank(a) != format_rank(b) {
        format_rank(a) < format_rank(b)
    } else {
        match (a, b) {
            (FormatView::Other(x), FormatView::Other(y)) => bytes_le(encode_utf8(x), encode_utf8(y)),
            _ => true,
        }
    }
}

/// Whether `a` sorts no later than `b` under `by`.
pub open spec fn key_le(by: SortBy, a: ObjectPreviewView, b: ObjectPreviewView) -> bool {
    match by {
        SortBy::Date => a.date <= b.date,
        SortBy::Type => format_le(a.content_format, b.content_format),
    }
}

/// Where a stable insertion puts `x` into `t`: after the last entry that
/// sorts no later than it, scanning from the end.
pub open spec fn insert_pos(by: SortBy, t: Seq<ObjectPreviewView>, x: ObjectPreviewView) -> int
    decreases t.len(),
{
    if t.len() == 0 {
        0
    } else if key_le(by, t.last(), x) {
        t.len() as int
    } else {
        insert_pos(by, t.drop_last(), x)
    }
}

/// The entries sorted by `by`, ties kept in the order given.
pub open spec fn stable_sort(by: SortBy, s: Seq<ObjectPreviewView>) -> Seq<ObjectPreviewView>
    decreases s.len(),
{
    if s.len() == 0 {
        Seq::empty()
    } else {
        let t = stable_sort(by, s.drop_last());
        t.insert(insert_pos(by, t, s.last()), s.last())
    }
}

/// The history table's rows: sorted ascending, then reversed for a
/// descending order.
pub open spec fn sorted_rows(items: Seq<ObjectPreviewView>, by: SortBy, order: SortOrder) -> Seq<ObjectPreviewView> {
    if order == SortOrder::Ascending {
        stable_sort(by, items)
    } else {
        stable_sort(by, items).reverse()
    }
}

/// The views of a list of previews.
pub open spec fn previews_view(s: Seq<CopiedObjectPreview>) -> Seq<ObjectPreviewView> {
    s.map_values(|p: CopiedObjectPreview| p@)
}

/// `bytes_le` on concrete bytes.
fn bytes_le_exec(a: &[u8], b: &[u8]) -> (r: bool)
    ensures
        r == bytes_le(a@, b@),
{
    let mut i: usize = 0;
    assert(a@.subrange(0, a@.len() as int) =~= a@);
    assert(b@.subrange(0, b@.len() as int) =~= b@);
    while i < a.len() && i < b.len()
        invariant
            i <= a@.len(),
            i <= b@.len(),
            bytes_le(a@, b@) == bytes_le(a@.subrange(i as int, a@.len() as int), b@.subrange(i as int, b@.len() as int)),
        decreases a@.len() - i,
    {
        if a[i] != b[i] {
            proof {
                let sa = a@.subrange(i as int, a@.len() as int);
                let sb = b@.subrange(i as int, b@.len() as int);
                assert(sa[0] == a@[i as int]);
                assert(sb[0] == b@[i as int]);
            }
            return a[i] < b[i];
        }
        proof {
            let sa = a@.subrange(i as int, a@.len() as int);
            let sb = b@.subrange(i as int, b@.len() as int);
            assert(sa.drop_first() =~= a@.subrange(i + 1, a@.len() as int));
            assert(sb.drop_first() =~= b@.subrange(i + 1, b@.len() as int));
        }
        i = i + 1;
    }
    i == a.len()
}

/// Whether `a` sorts no later than `b` under `by`.
fn key_le_exec(by: SortBy, a: &CopiedObjectPreview, b: &CopiedObjectPreview) -> (r: bool)
    ensures
        r == key_le(by, a@, b@),
{
    match by {
        SortBy::Date => a.date <= b.date,
        SortBy::Type => match (&a.content_format, &b.content_format) {
            (ObjectFormat::Other(x), ObjectFormat::Other(y)) => bytes_le_exec(x.as_str().as_bytes(), y.as_str().as_bytes()),
            (fa, fb) => format_rank_exec(fa) <= format_rank_exec(fb),
        },
    }
}

/// Position of a format's variant.
fn format_rank_exec(f: &ObjectFormat) -> (r: u8)
    ensures
        r as int == format_rank(f@),
{
    match f {
        ObjectFormat::Text => 0,
        ObjectFormat::Rtf => 1,
        ObjectFormat::Html => 2,
        ObjectFormat::Image => 3,
        ObjectFormat::Files => 4,
        ObjectFormat::Other(_) => 5,
    }
}

/// The history table's rows: `items` sorted by `sort_by`, ties kept in their
/// order, and reversed when the order is descending.
pub fn sort_history(items: Vec<CopiedObjectPreview>, sort_by: SortBy, sort_order: SortOrder) -> (r: Vec<CopiedObjectPreview>)
    ensures
        previews_view(r@) == sorted_rows(previews_view(items@), sort_by, sort_order),
{
    let ghost s = previews_view(items@);
    let mut out: Vec<CopiedObjectPreview> = Vec::new();
    let mut i: usize = 0;
    let n = items.len();
    for item in it: items
        invariant
            i == it.index(),
            n == items@.len(),
            it.seq() == items@,
            s == previews_view(items@),
            previews_view(out@) == stable_sort(sort_by, s.subrange(0, i as int)),
    {
        proof {
            assert(s.subrange(0, i as int + 1).drop_last() =~= s.subrange(0, i as int));
            assert(s.subrange(0, i as int + 1).last() == item@);
        }
        let mut pos = out.len();
        assert(previews_view(out@).subrange(0, pos as int) =~= previews_view(out@));
        while pos > 0 && !key_le_exec(sort_by, &out[pos - 1], &item)
            invariant
                pos <= out@.len(),
                insert_pos(sort_by, previews_view(out@), item@) == insert_pos(
                    sort_by,
                    previews_view(out@).subrange(0, pos as int),
                    item@,
                ),
            decreases pos,
        {
            proof {
                let t = previews_view(out@).subrange(0, pos as int);
                assert(t.drop_last() =~= previews_view(out@).subrange(0, pos - 1));
            }
            pos = pos - 1;
        }
        proof {
            let t = previews_view(out@).subrange(0, pos as int);
            if pos == 0 {
                assert(t =~= Seq::<ObjectPreviewView>::empty());
            }
        }
        let ghost before = out@;
        out.insert(pos, item);
        proof {
            assert(previews_view(out@) =~= previews_view(before).insert(pos as int, out@[pos as int]@));
        }
        i = i + 1;
    }
    proof {
        assert(s.subrange(0, n as int) =~= s);
    }
    if sort_order == SortOrder::Ascending {
        out
    } else {
        let mut reversed: Vec<CopiedObjectPreview> = Vec::new();
        let ghost sorted = previews_view(out@);
        while out.len() > 0
            invariant
                sorted.len() == out@.len() + reversed@.len(),
                previews_view(out@) == sorted.subrange(0, out@.len() as int),
                previews_view(reversed@) == sorted.subrange(out@.len() as int, sorted.len() as int).reverse(),
            decreases out@.len(),
        {
            let ghost before_out = out@;
            let ghost before_rev = reversed@;
            if let Some(last) = out.pop() {
                reversed.push(last);
                proof {
                    let k = before_out.len() - 1;
                    assert(last == before_out[k]);
                    assert(previews_view(before_out)[k] == sorted.subrange(0, before_out.len() as int)[k]);
                    assert(last@ == sorted[k]);
                    assert(previews_view(out@) =~= sorted.subrange(0, k));
                    assert(previews_view(reversed@) =~= previews_view(before_rev).push(sorted[k]));
                    assert(sorted.subrange(k, sorted.len() as int).reverse() =~= sorted.subrange(
                        k + 1,
                        sorted.len() as int,
                    ).reverse().push(sorted[k]));
                }
            }
        }
        proof {
            assert(sorted.subrange(0, sorted.len() as int) =~= sorted);
        }
        reversed
    }
}


/// Every entry sorts no later than every entry after it.
pub open spec fn is_sorted(by: SortBy, s: Seq<ObjectPreviewView>) -> bool {
    forall|i: int, j: int| 0 <= i < j < s.len() ==> key_le(by, #[trigger] s[i], #[trigger] s[j])
}

/// Byte strings are totally ordered.
proof fn lemma_bytes_le_total(a: Seq<u8>, b: Seq<u8>)
    ensures
        bytes_le(a, b) || bytes_le(b, a),
    decreases a.len(),
{
    if a.len() > 0 && b.len() > 0 && a[0] == b[0] {
        lemma_bytes_le_total(a.drop_first(), b.drop_first());
    }
}

/// The order on byte strings is transitive.
proof fn lemma_bytes_le_trans(a: Seq<u8>, b: Seq<u8>, c: Seq<u8>)
    requires
        bytes_le(a, b),
        bytes_le(b, c),
    ensures
        bytes_le(a, c),
    decreases a.len(),
{
    if a.len() > 0 && b.len() > 0 && c.len() > 0 && a[0] == b[0] && b[0] == c[0] {
        lemma_bytes_le_trans(a.drop_first(), b.drop_first(), c.drop_first());
    }
}

/// The sort keys are totally preordered.
proof fn lemma_key_le_total_preorder(by: SortBy, a: ObjectPreviewView, b: ObjectPreviewView, c: ObjectPreviewView)
    ensures
        key_le(by, a, b) || key_le(by, b, a),
        key_le(by, a, b) && key_le(by, b, c) ==> key_le(by, a, c),
{
    if by == SortBy::Type {
        match (a.content_format, b.content_format) {
            (FormatView::Other(x), FormatView::Other(y)) => lemma_bytes_le_total(encode_utf8(x), encode_utf8(y)),
            _ => {},
        }
        if key_le(by, a, b) && key_le(by, b, c) {
            match (a.content_format, b.content_format, c.content_format) {
                (FormatView::Other(x), FormatView::Other(y), FormatView::Other(z)) => {
                    lemma_bytes_le_trans(encode_utf8(x), encode_utf8(y), encode_utf8(z));
                },
                _ => {},
            }
        }
    }
}

/// The insertion point follows every entry that sorts no later than `x` at
/// the end, and precedes the entries after it.
proof fn lemma_insert_pos(by: SortBy, t: Seq<ObjectPreviewView>, x: ObjectPreviewView)
    ensures
        0 <= insert_pos(by, t, x) <= t.len(),
        forall|i: int| insert_pos(by, t, x) <= i < t.len() ==> !key_le(by, #[trigger] t[i], x),
        insert_pos(by, t, x) > 0 ==> key_le(by, t[insert_pos(by, t, x) - 1], x),
    decreases t.len(),
{
    if t.len() > 0 && !key_le(by, t.last(), x) {
        lemma_insert_pos(by, t.drop_last(), x);
        assert forall|i: int| insert_pos(by, t, x) <= i < t.len() implies !key_le(by, #[trigger] t[i], x) by {
            if i < t.len() - 1 {
                assert(t.drop_last()[i] == t[i]);
            }
        }
    }
}

/// Inserting at the insertion point keeps a sorted list sorted.
proof fn lemma_insert_sorted(by: SortBy, t: Seq<ObjectPreviewView>, x: ObjectPreviewView)
    requires
        is_sorted(by, t),
    ensures
        is_sorted(by, t.insert(insert_pos(by, t, x), x)),
{
    lemma_insert_pos(by, t, x);
    let p = insert_pos(by, t, x);
    let u = t.insert(p, x);
    t.insert_ensures(p, x);
    assert forall|i: int, j: int| 0 <= i < j < u.len() implies key_le(by, #[trigger] u[i], #[trigger] u[j]) by {
        if j < p {
            assert(u[i] == t[i] && u[j] == t[j]);
        } else if j == p {
            assert(u[i] == t[i]);
            lemma_key_le_total_preorder(by, t[i], t[p - 1], x);
        } else if i == p {
            assert(u[j] == t[j - 1]);
            lemma_key_le_total_preorder(by, t[j - 1], x, x);
        } else if i < p {
            assert(u[i] == t[i] && u[j] == t[j - 1]);
        } else {
            assert(u[i] == t[i - 1] && u[j] == t[j - 1]);
        }
    }
}

/// Inserting adds exactly the inserted entry.
proof fn lemma_insert_multiset(t: Seq<ObjectPreviewView>, p: int, x: ObjectPreviewView)
    requires
        0 <= p <= t.len(),
    ensures
        t.insert(p, x).to_multiset() =~= t.to_multiset().insert(x),
{
    let u = t.insert(p, x);
    t.insert_ensures(p, x);
    assert(u.remove(p) =~= t);
    u.to_multiset_ensures();
    assert(u[p] == x);
    assert(u.to_multiset().count(x) > 0) by {
        assert(u.contains(x));
    }
}

/// The stable sort orders its result and keeps exactly the entries it was
/// given.
pub proof fn lemma_stable_sort(by: SortBy, s: Seq<ObjectPreviewView>)
    ensures
        is_sorted(by, stable_sort(by, s)),
        stable_sort(by, s).to_multiset() == s.to_multiset(),
    decreases s.len(),
{
    if s.len() > 0 {
        lemma_stable_sort(by, s.drop_last());
        let t = stable_sort(by, s.drop_last());
        lemma_insert_sorted(by, t, s.last());
        lemma_insert_pos(by, t, s.last());
        lemma_insert_multiset(t, insert_pos(by, t, s.last()), s.last());
        s.drop_last().to_multiset_ensures();
        assert(s.drop_last().push(s.last()) =~= s);
    } else {
        assert(stable_sort(by, s) =~= s);
    }
}

/// Two entries tie under `by`: each sorts no later than the other.
pub open spec fn key_ties(by: SortBy, a: ObjectPreviewView, b: ObjectPreviewView) -> bool {
    key_le(by, a, b) && key_le(by, b, a)
}

/// No entry of `t` ties with `k` when each sorts strictly after `x`, which
/// ties with `k`.
proof fn lemma_no_ties_after(by: SortBy, t: Seq<ObjectPreviewView>, x: ObjectPreviewView, k: ObjectPreviewView)
    requires
        key_ties(by, x, k),
        forall|i: int| 0 <= i < t.len() ==> !key_le(by, #[trigger] t[i], x),
    ensures
        t.filter(|y: ObjectPreviewView| key_ties(by, y, k)) == Seq::<ObjectPreviewView>::empty(),
    decreases t.len(),
{
    reveal(Seq::filter);
    if t.len() > 0 {
        lemma_no_ties_after(by, t.drop_last(), x, k);
        lemma_key_le_total_preorder(by, t.last(), k, x);
        assert(!key_le(by, t[t.len() - 1], x));
    }
}

/// The sort is stable: the entries that tie with any entry `k` come out in
/// the order they were given.
pub proof fn lemma_stable_sort_keeps_ties(by: SortBy, s: Seq<ObjectPreviewView>, k: ObjectPreviewView)
    ensures
        stable_sort(by, s).filter(|y: ObjectPreviewView| key_ties(by, y, k)) == s.filter(
            |y: ObjectPreviewView| key_ties(by, y, k),
        ),
    decreases s.len(),
{
    reveal(Seq::filter);
    broadcast use Seq::filter_distributes_over_add;
    let pred = |y: ObjectPreviewView| key_ties(by, y, k);
    if s.len() > 0 {
        lemma_stable_sort_keeps_ties(by, s.drop_last(), k);
        let t = stable_sort(by, s.drop_last());
        let x = s.last();
        let p = insert_pos(by, t, x);
        lemma_insert_pos(by, t, x);
        let a = t.subrange(0, p);
        let b = t.subrange(p, t.len() as int);
        assert(t =~= a + b);
        assert(t.insert(p, x) =~= a + seq![x] + b);
        assert(seq![x].drop_last() =~= Seq::<ObjectPreviewView>::empty());
        assert(Seq::<ObjectPreviewView>::empty().filter(pred) =~= Seq::<ObjectPreviewView>::empty());
        assert(seq![x].last() == x);
        assert(seq![x].filter(pred) =~= if pred(x) { seq![x] } else { Seq::<ObjectPreviewView>::empty() });
        if pred(x) {
            assert forall|i: int| 0 <= i < b.len() implies !key_le(by, #[trigger] b[i], x) by {
                assert(b[i] == t[p + i]);
            }
            lemma_no_ties_after(by, b, x, k);
            assert((a + seq![x] + b).filter(pred) =~= a.filter(pred).push(x));
            assert(t.filter(pred) =~= a.filter(pred));
        } else {
            assert((a + seq![x] + b).filter(pred) =~= a.filter(pred) + b.filter(pred));
        }
    }
}

/// The rows of the history table are the given entries, ordered by the key:
/// each row sorts no later than the rows after it when ascending, and no
/// earlier when descending.
pub proof fn lemma_sorted_rows(items: Seq<ObjectPreviewView>, by: SortBy, order: SortOrder)
    ensures
        sorted_rows(items, by, order).to_multiset() == items.to_multiset(),
        order == SortOrder::Ascending ==> is_sorted(by, sorted_rows(items, by, order)),
        order == SortOrder::Descending ==> forall|i: int, j: int|
            0 <= i < j < sorted_rows(items, by, order).len() ==> key_le(
                by,
                #[trigger] sorted_rows(items, by, order)[j],
                #[trigger] sorted_rows(items, by, order)[i],
            ),
{
    lemma_stable_sort(by, items);
    let t = stable_sort(by, items);
    if order == SortOrder::Descending {
        let r = t.reverse();
        assert forall|i: int, j: int| 0 <= i < j < r.len() implies key_le(by, #[trigger] r[j], #[trigger] r[i]) by {
            assert(r[i] == t[t.len() - 1 - i]);
            assert(r[j] == t[t.len() - 1 - j]);
        }
        t.lemma_reverse_to_multiset();
    }
}


/// Byte strings that sort no later than each other are equal.
proof fn lemma_bytes_le_antisymmetric(a: Seq<u8>, b: Seq<u8>)
    requires
        bytes_le(a, b),
        bytes_le(b, a),
    ensures
        a == b,
    decreases a.len(),
{
    if a.len() > 0 && b.len() > 0 {
        lemma_bytes_le_antisymmetric(a.drop_first(), b.drop_first());
        assert(a =~= seq![a[0]] + a.drop_first());
        assert(b =~= seq![b[0]] + b.drop_first());
    } else {
        assert(a =~= b);
    }
}

/// `a` sorts strictly before `b` by type.
pub open spec fn format_before(a: FormatView, b: FormatView) -> bool {
    format_le(a, b) && !format_le(b, a)
}

/// Sorting by type follows the declaration order of the formats, text,
/// RTF, HTML, image, files, other: each kind sorts strictly before the next,
/// hence (the order being transitive) before every later one; and two
/// formats that sort no later than each other are the same format, so rows
/// of different formats never tie.
pub proof fn lemma_type_order(a: FormatView, b: FormatView, name: Seq<char>)
    ensures
        format_before(FormatView::Text, FormatView::Rtf),
        format_before(FormatView::Rtf, FormatView::Html),
        format_before(FormatView::Html, FormatView::Image),
        format_before(FormatView::Image, FormatView::Files),
        format_before(FormatView::Files, FormatView::Other(name)),
        format_le(a, b) || format_le(b, a),
        format_le(a, b) && format_le(b, a) ==> a == b,
{
    if let (FormatView::Other(x), FormatView::Other(y)) = (a, b) {
        lemma_bytes_le_total(encode_utf8(x), encode_utf8(y));
        if format_le(a, b) && format_le(b, a) {
            lemma_bytes_le_antisymmetric(encode_utf8(x), encode_utf8(y));
            vstd::utf8::encode_utf8_decode_utf8(x);
            vstd::utf8::encode_utf8_decode_utf8(y);
        }
    }
}

/// Sorting by type is transitive, so a row sorts before every row of a
/// later kind.
pub proof fn lemma_type_order_transitive(a: FormatView, b: FormatView, c: FormatView)
    requires
        format_le(a, b),
        format_le(b, c),
    ensures
        format_le(a, c),
{
    if let (FormatView::Other(x), FormatView::Other(y), FormatView::Other(z)) = (a, b, c) {
        lemma_bytes_le_trans(encode_utf8(x), encode_utf8(y), encode_utf8(z));
    }
}

/// Rows sorted by type ascending: a row never comes after a row whose format
/// sorts strictly before its own.
pub proof fn lemma_sorted_by_type(items: Seq<ObjectPreviewView>, i: int, j: int)
    requires
        0 <= i < j < sorted_rows(items, SortBy::Type, SortOrder::Ascending).len(),
    ensures
        !format_before(
            sorted_rows(items, SortBy::Type, SortOrder::Ascending)[j].content_format,
            sorted_rows(items, SortBy::Type, SortOrder::Ascending)[i].content_format,
        ),
{
    lemma_sorted_rows(items, SortBy::Type, SortOrder::Ascending);
    let r = sorted_rows(items, SortBy::Type, SortOrder::Ascending);
    assert(key_le(SortBy::Type, r[i], r[j]));
}

/// Different formats have different kind names.
pub proof fn lemma_kind_names_distinct(a: FormatView, b: FormatView)
    ensures
        kind_name(a) == kind_name(b) <==> format_rank(a) == format_rank(b),
{
    reveal_strlit("text");
    reveal_strlit("rtf");
    reveal_strlit("html");
    reveal_strlit("image");
    reveal_strlit("files");
    reveal_strlit("other");
    if kind_name(a) == kind_name(b) {
        assert(kind_name(a)[0] == kind_name(b)[0]);
    }
}

/// With no search active, a row is shown exactly when no kind is chosen or
/// its kind's name is one of the chosen names, wherever it stands among
/// them; with a search active the row's id must also be among the results.
pub proof fn lemma_row_shown(item: ObjectPreviewView, filters: Seq<Seq<char>>, results: Option<Set<u32>>)
    ensures
        row_shown(item, filters, results) <==> (filters.len() == 0 || exists|k: int|
            0 <= k < filters.len() && #[trigger] filters[k] == kind_name(item.content_format)) && match results {
            None => true,
            Some(ids) => ids.contains(item.id),
        },
{
    if exists|k: int| 0 <= k < filters.len() && #[trigger] filters[k] == kind_name(item.content_format) {
        let k = choose|k: int| 0 <= k < filters.len() && #[trigger] filters[k] == kind_name(item.content_format);
        assert(filters.contains(kind_name(item.content_format)));
    }
}

/// The rows shown are `items` filtered by whether each is shown: nothing
/// else, in their order.
pub proof fn lemma_shown_rows_filter(items: Seq<ObjectPreviewView>, filters: Seq<Seq<char>>, results: Option<Set<u32>>)
    ensures
        shown_rows(items, filters, results) == items.filter(|x: ObjectPreviewView| row_shown(x, filters, results)),
    decreases items.len(),
{
    reveal(Seq::filter);
    if items.len() > 0 {
        lemma_shown_rows_filter(items.drop_last(), filters, results);
    }
}

/// The rows shown are those of `items` that are shown, in their order: a
/// row is kept exactly when it is shown.
pub proof fn lemma_shown_rows_members(items: Seq<ObjectPreviewView>, filters: Seq<Seq<char>>, results: Option<Set<u32>>, x: ObjectPreviewView)
    ensures
        shown_rows(items, filters, results).contains(x) <==> items.contains(x) && row_shown(x, filters, results),
    decreases items.len(),
{
    if items.len() > 0 {
        lemma_shown_rows_members(items.drop_last(), filters, results, x);
        if items.contains(x) && x != items.last() {
            let k = choose|k: int| 0 <= k < items.len() && items[k] == x;
            assert(items.drop_last()[k] == x);
        }
        if items.drop_last().contains(x) {
            let k = choose|k: int| 0 <= k < items.drop_last().len() && items.drop_last()[k] == x;
            assert(items[k] == x);
        }
        assert(items[items.len() - 1] == items.last());
        let rest = shown_rows(items.drop_last(), filters, results);
        if row_shown(items.last(), filters, results) {
            assert(rest.push(items.last())[rest.len() as int] == items.last());
            if rest.contains(x) {
                let k = choose|k: int| 0 <= k < rest.len() && rest[k] == x;
                assert(rest.push(items.last())[k] == x);
            }
            if rest.push(items.last()).contains(x) {
                let k = choose|k: int| 0 <= k < rest.len() + 1 && rest.push(items.last())[k] == x;
                if k < rest.len() {
                    assert(rest[k] == x);
                }
            }
        }
    }
}

/// A row is shown when its kind is among the chosen kinds (or none is
/// chosen) and, while a search is active, its id is among the results.
pub open spec fn row_shown(item: ObjectPreviewView, filters: Seq<Seq<char>>, results: Option<Set<u32>>) -> bool {
    (filters.len() == 0 || filters.contains(kind_name(item.content_format))) && match results {
        None => true,
        Some(ids) => ids.contains(item.id),
    }
}

/// The rows shown, in order.
pub open spec fn shown_rows(items: Seq<ObjectPreviewView>, filters: Seq<Seq<char>>, results: Option<Set<u32>>) -> Seq<
    ObjectPreviewView,
>
    decreases items.len(),
{
    if items.len() == 0 {
        Seq::empty()
    } else if row_shown(items.last(), filters, results) {
        shown_rows(items.drop_last(), filters, results).push(items.last())
    } else {
        shown_rows(items.drop_last(), filters, results)
    }
}

/// Whether `kind` is one of `filters`.
fn kind_chosen(filters: &Vec<String>, kind: &str) -> (r: bool)
    ensures
        r == strings_view(filters@).contains(kind@),
{
    let k = kind.to_owned();
    let mut i: usize = 0;
    while i < filters.len()
        invariant
            i <= filters@.len(),
            k@ == kind@,
            forall|j: int| 0 <= j < i ==> filters@[j]@ != kind@,
        decreases filters@.len() - i,
    {
        if filters[i] == k {
            assert(strings_view(filters@)[i as int] == kind@);
            return true;
        }
        i = i + 1;
    }
    proof {
        if strings_view(filters@).contains(kind@) {
            let j = choose|j: int| 0 <= j < filters@.len() && strings_view(filters@)[j] == kind@;
            assert(filters@[j]@ == kind@);
        }
    }
    false
}

/// The rows shown for the chosen kinds and the active search results.
pub fn filter_history(items: Vec<CopiedObjectPreview>, filters: &Vec<String>, results: &Option<HashSet<u32>>) -> (r: Vec<
    CopiedObjectPreview,
>)
    ensures
        previews_view(r@) == shown_rows(
            previews_view(items@),
            strings_view(filters@),
            match results {
                Some(ids) => Some(ids@),
                None => None,
            },
        ),
{
    let ghost s = previews_view(items@);
    let ghost fv = strings_view(filters@);
    let ghost rv = match results {
        Some(ids) => Some(ids@),
        None => None,
    };
    let mut out: Vec<CopiedObjectPreview> = Vec::new();
    let mut i: usize = 0;
    let n = items.len();
    for item in it: items
        invariant
            i == it.index(),
            n == items@.len(),
            it.seq() == items@,
            s == previews_view(items@),
            fv == strings_view(filters@),
            rv == match results {
                Some(ids) => Some(ids@),
                None => None,
            },
            previews_view(out@) == shown_rows(s.subrange(0, i as int), fv, rv),
    {
        proof {
            assert(s.subrange(0, i as int + 1).drop_last() =~= s.subrange(0, i as int));
            assert(s.subrange(0, i as int + 1).last() == item@);
        }
        let kind_ok = filters.len() == 0 || kind_chosen(filters, format_kind(&item));
        let id_ok = match results {
            None => true,
            Some(ids) => ids.contains(&item.id),
        };
        if kind_ok && id_ok {
            let ghost before = out@;
            out.push(item);
            proof {
                assert(previews_view(out@) =~= previews_view(before).push(out@[out@.len() - 1]@));
            }
        }
        i = i + 1;
    }
    proof {
        assert(s.subrange(0, n as int) =~= s);
    }
    out
}

/// What the interface shows for an entry's payload.
#[derive(Debug)]
pub enum Shown {
    /// Text shown as it is.
    Text(String),
    /// An image, as the `data:` URL of its PNG bytes.
    Image(String),
    /// A list of file paths.
    Files(Vec<String>),
    /// A bracketed placeholder.
    Label(String),
}

/// Mathematical value of a [`Shown`].
pub enum ShownView {
    Text(Seq<char>),
    Image(Seq<char>),
    Files(Seq<Seq<char>>),
    Label(Seq<char>),
}

impl View for Shown {
    type V = ShownView;

    open spec fn view(&self) -> ShownView {
        match self {
            Shown::Text(s) => ShownView::Text(s@),
            Shown::Image(s) => ShownView::Image(s@),
            Shown::Files(f) => ShownView::Files(strings_view(f@)),
            Shown::Label(s) => ShownView::Label(s@),
        }
    }
}

/// The `data:` URL of PNG bytes.
pub open spec fn png_data_url(bytes: Seq<u8>) -> Seq<char> {
    "data:image/png;base64,"@ + base64_standard(bytes)
}

/// How an image is shown: the placeholder `[image]` when there are no bytes,
/// the picture otherwise.
pub open spec fn shown_image(bytes: Seq<u8>) -> ShownView {
    if bytes.len() == 0 {
        ShownView::Label("[image]"@)
    } else {
        ShownView::Image(png_data_url(bytes))
    }
}

/// The placeholder of a payload in another format: `[name (n bytes)]`.
pub open spec fn other_label(name: Seq<char>, n: nat) -> Seq<char> {
    "["@ + name + " ("@ + decimal(n) + " bytes)]"@
}

/// What the history table shows for a preview.
pub open spec fn shown_preview(p: PreviewView) -> ShownView {
    match p {
        PreviewView::Text(s) => ShownView::Text(s),
        PreviewView::Rtf(s) => ShownView::Text(s),
        PreviewView::Html(s) => ShownView::Text(s),
        PreviewView::Image(b) => shown_image(b),
        PreviewView::Files(f) => ShownView::Files(f),
        PreviewView::Other(name, n) => ShownView::Label(other_label(name, n as nat)),
    }
}

/// What the detail view shows for a full payload.
pub open spec fn shown_content(c: ContentView) -> ShownView {
    match c {
        ContentView::Text(s) => ShownView::Text(s),
        ContentView::Rtf(s) => ShownView::Text(s),
        ContentView::Html(s) => ShownView::Text(s),
        ContentView::Image(b) => shown_image(b),
        ContentView::Files(f) => ShownView::Files(f),
        ContentView::Other(name, b) => ShownView::Label(other_label(name, b.len())),
    }
}

/// How image bytes are shown.
fn image_shown(bytes: &Vec<u8>) -> (r: Shown)
    requires
        base64_len(bytes@.len()) <= usize::MAX,
    ensures
        r@ == shown_image(bytes@),
{
    if bytes.len() == 0 {
        proof {
            reveal_strlit("[image]");
        }
        Shown::Label("[image]".to_owned())
    } else {
        let mut url = "data:image/png;base64,".to_owned();
        let encoded = base64_encode(bytes.as_slice());
        url.append(encoded.as_str());
        Shown::Image(url)
    }
}

/// The placeholder `[name (n bytes)]`.
fn other_shown(name: &String, n: u64) -> (r: Shown)
    ensures
        r@ == ShownView::Label(other_label(name@, n as nat)),
{
    let mut label = "[".to_owned();
    label.append(name.as_str());
    label.append(" (");
    label.append(decimal_string(n).as_str());
    label.append(" bytes)]");
    Shown::Label(label)
}

/// What the history table shows for an entry's preview.
pub fn format_preview(item: &CopiedObjectPreview) -> (r: Shown)
    requires
        item.preview matches PreviewContent::Image(b) ==> base64_len(b@.len()) <= usize::MAX,
    ensures
        r@ == shown_preview(item.preview@),
{
    match &item.preview {
        PreviewContent::Text(s) => Shown::Text(s.clone()),
        PreviewContent::Rtf(s) => Shown::Text(s.clone()),
        PreviewContent::Html(s) => Shown::Text(s.clone()),
        PreviewContent::Image(bytes) => image_shown(bytes),
        PreviewContent::Files(files) => Shown::Files(copy_strings(files)),
        PreviewContent::Other(name, n) => other_shown(name, *n),
    }
}

/// What the detail view shows for an entry's full payload.
pub fn format_full(obj: &CopiedObject) -> (r: Shown)
    requires
        obj.content matches ObjectContent::Image(b) ==> base64_len(b@.len()) <= usize::MAX,
    ensures
        r@ == shown_content(obj.content@),
{
    match &obj.content {
        ObjectContent::Text(s) => Shown::Text(s.clone()),
        ObjectContent::Rtf(s) => Shown::Text(s.clone()),
        ObjectContent::Html(s) => Shown::Text(s.clone()),
        ObjectContent::Image(bytes) => image_shown(bytes),
        ObjectContent::Files(files) => Shown::Files(copy_strings(files)),
        ObjectContent::Other(name, bytes) => other_shown(name, bytes.len() as u64),
    }
}

} // verus!
