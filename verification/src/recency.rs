//! Recency-ordered lists of keyed entries: the mathematical model of the
//! caches, and the facts about it that the caches' proofs rest on.
use vstd::prelude::*;

verus! {

/// Sum of `size` over the values of `s`.
pub open spec fn entries_total<V>(s: Seq<(u32, V)>, size: spec_fn(V) -> nat) -> nat
    decreases s.len(),
{
    if s.len() == 0 {
        0
    } else {
        entries_total(s.drop_last(), size) + size(s.last().1)
    }
}

/// No key occurs twice.
pub open spec fn unique_ids<V>(s: Seq<(u32, V)>) -> bool {
    forall|i: int, j: int| 0 <= i < j < s.len() ==> #[trigger] s[i].0 != #[trigger] s[j].0
}

/// Position of the last entry with key `id`, or `-1` when there is none.
pub open spec fn find_id<V>(s: Seq<(u32, V)>, id: u32) -> int
    decreases s.len(),
{
    if s.len() == 0 {
        -1
    } else if s.last().0 == id {
        s.len() - 1
    } else {
        find_id(s.drop_last(), id)
    }
}

/// The value stored under `id`.
pub open spec fn lookup<V>(s: Seq<(u32, V)>, id: u32) -> Option<V> {
    if find_id(s, id) >= 0 {
        Some(s[find_id(s, id)].1)
    } else {
        None
    }
}

/// `s` without the entry of key `id`.
pub open spec fn without_id<V>(s: Seq<(u32, V)>, id: u32) -> Seq<(u32, V)> {
    if find_id(s, id) >= 0 {
        s.remove(find_id(s, id))
    } else {
        s
    }
}

/// `s` with the entry of key `id`, if any, moved to the most recent end.
pub open spec fn touched<V>(s: Seq<(u32, V)>, id: u32) -> Seq<(u32, V)> {
    if find_id(s, id) >= 0 {
        s.remove(find_id(s, id)).push(s[find_id(s, id)])
    } else {
        s
    }
}

/// `find_id` names an entry of key `id` when it is not `-1`, and there is none
/// when it is.
pub proof fn lemma_find_id<V>(s: Seq<(u32, V)>, id: u32)
    ensures
        -1 <= find_id(s, id) < s.len(),
        find_id(s, id) >= 0 ==> s[find_id(s, id)].0 == id,
        find_id(s, id) < 0 ==> forall|i: int| 0 <= i < s.len() ==> #[trigger] s[i].0 != id,
    decreases s.len(),
{
    if s.len() > 0 && s.last().0 != id {
        lemma_find_id(s.drop_last(), id);
        assert forall|i: int| 0 <= i < s.len() && find_id(s, id) < 0 implies #[trigger] s[i].0 != id by {
            if i < s.len() - 1 {
                assert(s.drop_last()[i] == s[i]);
            }
        }
    }
}

/// With unique keys, the entry of key `id` sits at the one position that holds it.
pub proof fn lemma_find_id_unique<V>(s: Seq<(u32, V)>, id: u32, p: int)
    requires
        unique_ids(s),
        0 <= p < s.len(),
        s[p].0 == id,
    ensures
        find_id(s, id) == p,
{
    lemma_find_id(s, id);
    let f = find_id(s, id);
    if f != p {
        if f < p {
            assert(s[f].0 != s[p].0);
        } else {
            assert(s[p].0 != s[f].0);
        }
    }
}

/// Removing the entry at `i` takes its size off the total.
pub proof fn lemma_total_remove<V>(s: Seq<(u32, V)>, size: spec_fn(V) -> nat, i: int)
    requires
        0 <= i < s.len(),
    ensures
        entries_total(s.remove(i), size) + size(s[i].1) == entries_total(s, size),
    decreases s.len(),
{
    if i == s.len() - 1 {
        assert(s.remove(i) =~= s.drop_last());
    } else {
        lemma_total_remove(s.drop_last(), size, i);
        assert(s.remove(i).drop_last() =~= s.drop_last().remove(i));
        assert(s.remove(i).last() == s.last());
    }
}

/// The entry at `i` never weighs more than the total.
pub proof fn lemma_total_ge_entry<V>(s: Seq<(u32, V)>, size: spec_fn(V) -> nat, i: int)
    requires
        0 <= i < s.len(),
    ensures
        size(s[i].1) <= entries_total(s, size),
{
    lemma_total_remove(s, size, i);
}

/// Moving an entry to the most recent end keeps the total.
pub proof fn lemma_total_touched<V>(s: Seq<(u32, V)>, size: spec_fn(V) -> nat, id: u32)
    ensures
        entries_total(touched(s, id), size) == entries_total(s, size),
        touched(s, id).len() == s.len(),
{
    lemma_find_id(s, id);
    let f = find_id(s, id);
    if f >= 0 {
        lemma_total_remove(s, size, f);
        assert(s.remove(f).push(s[f]).drop_last() =~= s.remove(f));
    }
}

/// Removing the entry of `id` takes its size, if any, off the total.
pub proof fn lemma_total_without<V>(s: Seq<(u32, V)>, size: spec_fn(V) -> nat, id: u32)
    ensures
        entries_total(without_id(s, id), size) <= entries_total(s, size),
        without_id(s, id).len() <= s.len(),
        find_id(s, id) >= 0 ==> entries_total(without_id(s, id), size) + size(s[find_id(s, id)].1)
            == entries_total(s, size),
{
    lemma_find_id(s, id);
    let f = find_id(s, id);
    if f >= 0 {
        lemma_total_remove(s, size, f);
    }
}

/// Keys stay unique when an entry is removed.
pub proof fn lemma_unique_remove<V>(s: Seq<(u32, V)>, i: int)
    requires
        unique_ids(s),
        0 <= i < s.len(),
    ensures
        unique_ids(s.remove(i)),
{
    let r = s.remove(i);
    assert forall|a: int, b: int| 0 <= a < b < r.len() implies #[trigger] r[a].0 != #[trigger] r[b].0 by {
        let a2 = if a < i { a } else { a + 1 };
        let b2 = if b < i { b } else { b + 1 };
        assert(r[a] == s[a2]);
        assert(r[b] == s[b2]);
    }
}

/// No entry of key `id` is left once it has been removed.
pub proof fn lemma_without_absent<V>(s: Seq<(u32, V)>, id: u32)
    requires
        unique_ids(s),
    ensures
        unique_ids(without_id(s, id)),
        forall|i: int| 0 <= i < without_id(s, id).len() ==> #[trigger] without_id(s, id)[i].0 != id,
        find_id(without_id(s, id), id) < 0,
        lookup(without_id(s, id), id) is None,
{
    lemma_find_id(s, id);
    let f = find_id(s, id);
    let w = without_id(s, id);
    if f >= 0 {
        lemma_unique_remove(s, f);
        assert forall|i: int| 0 <= i < w.len() implies #[trigger] w[i].0 != id by {
            let i2 = if i < f { i } else { i + 1 };
            assert(w[i] == s[i2]);
            assert(s[i2].0 != s[f].0);
        }
    }
    lemma_find_id(w, id);
}

/// Adding an entry whose key is absent keeps keys unique.
pub proof fn lemma_unique_push<V>(s: Seq<(u32, V)>, e: (u32, V))
    requires
        unique_ids(s),
        forall|i: int| 0 <= i < s.len() ==> #[trigger] s[i].0 != e.0,
    ensures
        unique_ids(s.push(e)),
{
    let t = s.push(e);
    assert forall|a: int, b: int| 0 <= a < b < t.len() implies #[trigger] t[a].0 != #[trigger] t[b].0 by {
        assert(t[a] == s[a]);
        if b < s.len() {
            assert(t[b] == s[b]);
        }
    }
}

/// Moving an entry to the most recent end keeps keys unique, and every key
/// still finds the value it found before.
pub proof fn lemma_touched_lookup<V>(s: Seq<(u32, V)>, id: u32, x: u32)
    requires
        unique_ids(s),
    ensures
        unique_ids(touched(s, id)),
        lookup(touched(s, id), x) == lookup(s, x),
{
    lemma_find_id(s, id);
    let f = find_id(s, id);
    if f >= 0 {
        let t = touched(s, id);
        lemma_unique_remove(s, f);
        lemma_without_absent(s, id);
        lemma_unique_push(s.remove(f), s[f]);
        lemma_find_id(s, x);
        let g = find_id(s, x);
        if g >= 0 {
            if g == f {
                lemma_find_id_unique(t, x, t.len() - 1);
            } else {
                let g2 = if g < f { g } else { g - 1 };
                assert(t[g2] == s[g]);
                lemma_find_id_unique(t, x, g2);
            }
        } else {
            lemma_find_id(t, x);
            if find_id(t, x) >= 0 {
                let h = find_id(t, x);
                if h == t.len() - 1 {
                    assert(t[h] == s[f]);
                } else {
                    let h2 = if h < f { h } else { h + 1 };
                    assert(t[h] == s[h2]);
                }
            }
        }
    }
}

/// The value found under a key of a list with unique keys is the one stored
/// in its entry.
pub proof fn lemma_lookup_at<V>(s: Seq<(u32, V)>, p: int)
    requires
        unique_ids(s),
        0 <= p < s.len(),
    ensures
        lookup(s, s[p].0) == Some(s[p].1),
{
    lemma_find_id_unique(s, s[p].0, p);
}


/// Removing the entry of `id` leaves every other key's value as it was.
pub proof fn lemma_without_lookup_other<V>(s: Seq<(u32, V)>, id: u32, x: u32)
    requires
        unique_ids(s),
        x != id,
    ensures
        lookup(without_id(s, id), x) == lookup(s, x),
{
    lemma_find_id(s, id);
    lemma_find_id(s, x);
    let f = find_id(s, id);
    let g = find_id(s, x);
    let w = without_id(s, id);
    if f >= 0 {
        lemma_unique_remove(s, f);
        if g >= 0 {
            let g2 = if g < f { g } else { g - 1 };
            assert(w[g2] == s[g]);
            lemma_find_id_unique(w, x, g2);
        } else {
            lemma_find_id(w, x);
            if find_id(w, x) >= 0 {
                let h = find_id(w, x);
                let h2 = if h < f { h } else { h + 1 };
                assert(w[h] == s[h2]);
            }
        }
    }
}

/// Adding an entry of another key leaves `x`'s value as it was.
pub proof fn lemma_push_lookup_other<V>(s: Seq<(u32, V)>, e: (u32, V), x: u32)
    requires
        e.0 != x,
    ensures
        lookup(s.push(e), x) == lookup(s, x),
{
    assert(s.push(e).drop_last() =~= s);
    assert(find_id(s.push(e), x) == find_id(s, x));
    lemma_find_id(s, x);
    if find_id(s, x) >= 0 {
        assert(s.push(e)[find_id(s, x)] == s[find_id(s, x)]);
    }
}

/// A most recent part of a list with unique keys finds, for each key, the
/// value the whole list finds, or nothing.
pub proof fn lemma_lookup_suffix<V>(t: Seq<(u32, V)>, k: int, x: u32)
    requires
        unique_ids(t),
        0 <= k <= t.len(),
    ensures
        lookup(t.subrange(k, t.len() as int), x) is None || lookup(t.subrange(k, t.len() as int), x) == lookup(t, x),
{
    let u = t.subrange(k, t.len() as int);
    lemma_find_id(u, x);
    let h = find_id(u, x);
    if h >= 0 {
        assert(u[h] == t[h + k]);
        lemma_find_id_unique(t, x, h + k);
    }
}

/// A part of a list with unique keys has unique keys.
pub proof fn lemma_unique_suffix<V>(t: Seq<(u32, V)>, k: int)
    requires
        unique_ids(t),
        0 <= k <= t.len(),
    ensures
        unique_ids(t.subrange(k, t.len() as int)),
{
    let u = t.subrange(k, t.len() as int);
    assert forall|a: int, b: int| 0 <= a < b < u.len() implies #[trigger] u[a].0 != #[trigger] u[b].0 by {
        assert(u[a] == t[a + k]);
        assert(u[b] == t[b + k]);
    }
}

} // verus!
