//! The least-recently-used caches of decrypted entries and of their previews.
//!
//! Each cache keeps its entries in a map from id to (value, size) and their
//! ids in a queue ordered from least to most recently used. The byte total of
//! the cached values is kept under [`TOTAL_MAX_BYTES`]; the full-content cache
//! also keeps at most [`MAX_ITEMS`] entries and refuses values larger than
//! [`PER_ITEM_MAX_BYTES`].
use std::collections::HashMap;
use std::collections::VecDeque;
use vstd::prelude::*;

use crate::constants::cache::{MAX_ITEMS, PER_ITEM_MAX_BYTES, TOTAL_MAX_BYTES};
use crate::model::{
    object_size_spec, preview_size_spec, CopiedObject, CopiedObjectPreview, ObjectPreviewView,
    ObjectView,
};
use crate::recency::{
    entries_total, find_id, lemma_find_id, lemma_find_id_unique, lemma_lookup_at,
    lemma_total_ge_entry, lemma_total_remove, lemma_total_touched, lemma_total_without,
    lemma_lookup_suffix, lemma_push_lookup_other, lemma_touched_lookup, lemma_unique_push,
    lemma_unique_remove, lemma_without_absent, lemma_without_lookup_other, lookup, touched,
    unique_ids, without_id,
};

verus! {

broadcast use {
    vstd::std_specs::hash::group_hash_axioms,
    vstd::hash_map::group_hash_map_axioms,
};

/// The size that a full object accounts for.
pub open spec fn object_sizer() -> spec_fn(ObjectView) -> nat {
    |v: ObjectView| object_size_spec(v)
}

/// The size that a preview accounts for.
pub open spec fn preview_sizer() -> spec_fn(ObjectPreviewView) -> nat {
    |v: ObjectPreviewView| preview_size_spec(v)
}

/// The entries left once the least recently used ones have been dropped until
/// the total is at most [`TOTAL_MAX_BYTES`] and at most [`MAX_ITEMS`] remain.
pub open spec fn evict_objects(s: Seq<(u32, ObjectView)>) -> Seq<(u32, ObjectView)>
    decreases s.len(),
{
    if s.len() > 0 && (entries_total(s, object_sizer()) > TOTAL_MAX_BYTES || s.len() > MAX_ITEMS) {
        evict_objects(s.drop_first())
    } else {
        s
    }
}

/// The entries left once the least recently used previews have been dropped
/// until the total is at most [`TOTAL_MAX_BYTES`].
pub open spec fn evict_previews(s: Seq<(u32, ObjectPreviewView)>) -> Seq<(u32, ObjectPreviewView)>
    decreases s.len(),
{
    if s.len() > 0 && entries_total(s, preview_sizer()) > TOTAL_MAX_BYTES {
        evict_previews(s.drop_first())
    } else {
        s
    }
}

/// The entries of the full-content cache after `insert(id, v)`.
pub open spec fn object_inserted(s: Seq<(u32, ObjectView)>, id: u32, v: ObjectView) -> Seq<(u32, ObjectView)> {
    if object_size_spec(v) > PER_ITEM_MAX_BYTES {
        s
    } else {
        evict_objects(without_id(s, id).push((id, v)))
    }
}

/// The entries of the preview cache after `insert(id, v)`.
pub open spec fn preview_inserted(
    s: Seq<(u32, ObjectPreviewView)>,
    id: u32,
    v: ObjectPreviewView,
) -> Seq<(u32, ObjectPreviewView)> {
    evict_previews(without_id(s, id).push((id, v)))
}

/// Position of `id` in `order`, scanning from the least recently used end.
fn position_of(order: &VecDeque<u32>, id: u32) -> (r: Option<usize>)
    ensures
        match r {
            Some(p) => p < order@.len() && order@[p as int] == id,
            None => !order@.contains(id),
        },
{
    let mut i: usize = 0;
    while i < order.len()
        invariant
            i <= order@.len(),
            forall|j: int| 0 <= j < i ==> order@[j] != id,
        decreases order@.len() - i,
    {
        if order[i] == id {
            return Some(i);
        }
        i = i + 1;
    }
    None
}

/// Cache of decrypted full objects, keyed by history id.
pub struct DecryptedCache {
    map: HashMap<u32, (CopiedObject, usize)>,
    order: VecDeque<u32>,
    bytes: usize,
}

impl DecryptedCache {
    /// The cached objects, from least to most recently used.
    pub closed spec fn entries(&self) -> Seq<(u32, ObjectView)> {
        self.order@.map_values(|id: u32| (id, self.map@[id].0@))
    }

    /// The map and the queue hold the same ids, each once, the recorded sizes
    /// are the objects' sizes, and the byte count is their sum.
    closed spec fn wf_core(&self) -> bool {
        &&& self.order@.no_duplicates()
        &&& forall|id: u32| #[trigger] self.map@.contains_key(id) <==> self.order@.contains(id)
        &&& forall|id: u32| #[trigger]
            self.map@.contains_key(id) ==> self.map@[id].1 == object_size_spec(self.map@[id].0@)
                && self.map@[id].1 <= PER_ITEM_MAX_BYTES
        &&& self.bytes == entries_total(self.entries(), object_sizer())
    }

    /// The cache is consistent and within its limits.
    pub closed spec fn wf(&self) -> bool {
        &&& self.wf_core()
        &&& self.bytes <= TOTAL_MAX_BYTES
        &&& self.order@.len() <= MAX_ITEMS
    }

    proof fn lemma_unique(&self)
        requires
            self.order@.no_duplicates(),
        ensures
            unique_ids(self.entries()),
            self.entries().len() == self.order@.len(),
            forall|i: int| 0 <= i < self.order@.len() ==> #[trigger] self.entries()[i].0 == self.order@[i],
    {
        let e = self.entries();
        assert forall|a: int, b: int| 0 <= a < b < e.len() implies #[trigger] e[a].0 != #[trigger] e[b].0 by {
            assert(self.order@[a] != self.order@[b]);
        }
    }

    /// An empty cache.
    pub fn new() -> (r: Self)
        ensures
            r.wf(),
            r.entries() == Seq::<(u32, ObjectView)>::empty(),
    {
        let r = DecryptedCache { map: HashMap::new(), order: VecDeque::new(), bytes: 0 };
        assert(r.entries() =~= Seq::<(u32, ObjectView)>::empty());
        r
    }
}


impl DecryptedCache {
    /// The entry at position `p` of the queue is the one of `order@[p]`, and
    /// taking out that id from both the map and the queue takes out exactly
    /// that entry.
    proof fn lemma_remove_entry(
        &self,
        p: int,
        map2: Map<u32, (CopiedObject, usize)>,
        order2: Seq<u32>,
    )
        requires
            self.wf_core(),
            0 <= p < self.order@.len(),
            map2 == self.map@.remove(self.order@[p]),
            order2 == self.order@.remove(p),
        ensures
            order2.map_values(|id: u32| (id, map2[id].0@)) == without_id(self.entries(), self.order@[p]),
            order2.map_values(|id: u32| (id, map2[id].0@)) == self.entries().remove(p),
            order2.no_duplicates(),
    {
        let id = self.order@[p];
        self.lemma_unique();
        lemma_find_id_unique(self.entries(), id, p);
        let e2 = order2.map_values(|x: u32| (x, map2[x].0@));
        assert forall|i: int| 0 <= i < e2.len() implies #[trigger] e2[i] == self.entries().remove(p)[i] by {
            let i2 = if i < p { i } else { i + 1 };
            assert(order2[i] == self.order@[i2]);
            assert(self.order@[i2] != id);
        }
        assert(e2 =~= self.entries().remove(p));
        assert forall|a: int, b: int| 0 <= a < b < order2.len() implies order2[a] != order2[b] by {
            let a2 = if a < p { a } else { a + 1 };
            let b2 = if b < p { b } else { b + 1 };
            assert(order2[a] == self.order@[a2]);
            assert(order2[b] == self.order@[b2]);
        }
    }

    /// Drops the object of `id`, if it is cached, and wipes it.
    pub fn remove(&mut self, id: u32)
        requires
            old(self).wf(),
        ensures
            final(self).wf(),
            final(self).entries() == without_id(old(self).entries(), id),
    {
        let ghost old_self = *self;
        proof {
            old_self.lemma_unique();
        }
        match self.map.remove(&id) {
            Some((mut obj, size)) => {
                assert(old_self.map@.contains_key(id));
                assert(old_self.order@.contains(id));
                let pos = position_of(&self.order, id);
                match pos {
                    Some(p) => {
                        proof {
                            old_self.lemma_remove_entry(p as int, self.map@, old_self.order@.remove(p as int));
                            lemma_find_id_unique(old_self.entries(), id, p as int);
                            lemma_total_remove(old_self.entries(), object_sizer(), p as int);
                        }
                        self.bytes = self.bytes - size;
                        self.order.remove(p);
                        assert(self.order@ == old_self.order@.remove(p as int));
                        assert(self.order@.no_duplicates());
                        assert forall|x: u32| #[trigger] self.map@.contains_key(x) <==> self.order@.contains(x) by {
                            if self.order@.contains(x) {
                                let k = choose|k: int| 0 <= k < self.order@.len() && self.order@[k] == x;
                                let k2 = if k < p { k } else { k + 1 };
                                assert(old_self.order@[k2] == x);
                                assert(x != id);
                            }
                            if self.map@.contains_key(x) {
                                assert(old_self.order@.contains(x));
                                let k = choose|k: int| 0 <= k < old_self.order@.len() && old_self.order@[k] == x;
                                assert(k != p);
                                let k2 = if k < p { k } else { k - 1 };
                                assert(self.order@[k2] == x);
                            }
                        }
                        assert(self.bytes == entries_total(self.entries(), object_sizer()));
                        assert(self.wf_core());
                    },
                    None => {},
                }
                obj.zeroize();
            },
            None => {
                proof {
                    lemma_find_id(old_self.entries(), id);
                    if find_id(old_self.entries(), id) >= 0 {
                        let f = find_id(old_self.entries(), id);
                        assert(old_self.order@[f] == id);
                    }
                    assert(self.entries() =~= old_self.entries());
                }
            },
        }
    }
}


impl DecryptedCache {
    /// The id `id` is cached exactly when it is in the queue, and then the
    /// lookup finds its object.
    proof fn lemma_lookup(&self, id: u32)
        requires
            self.wf_core(),
        ensures
            self.map@.contains_key(id) ==> lookup(self.entries(), id) == Some(self.map@[id].0@),
            !self.map@.contains_key(id) ==> lookup(self.entries(), id) is None,
            !self.map@.contains_key(id) ==> find_id(self.entries(), id) < 0,
    {
        self.lemma_unique();
        lemma_find_id(self.entries(), id);
        if self.map@.contains_key(id) {
            assert(self.order@.contains(id));
            let k = choose|k: int| 0 <= k < self.order@.len() && self.order@[k] == id;
            lemma_lookup_at(self.entries(), k);
        } else {
            if find_id(self.entries(), id) >= 0 {
                let f = find_id(self.entries(), id);
                assert(self.order@[f] == id);
            }
        }
    }

    /// Marks `id` as the most recently used entry.
    fn touch(&mut self, id: u32)
        requires
            old(self).wf(),
        ensures
            final(self).wf(),
            final(self).entries() == touched(old(self).entries(), id),
    {
        let ghost old_self = *self;
        proof {
            old_self.lemma_unique();
            lemma_total_touched(old_self.entries(), object_sizer(), id);
        }
        match position_of(&self.order, id) {
            Some(p) => {
                self.order.remove(p);
                self.order.push_back(id);
                proof {
                    let o1 = old_self.order@;
                    let o2 = self.order@;
                    lemma_find_id_unique(old_self.entries(), id, p as int);
                    assert(o2 == o1.remove(p as int).push(id));
                    assert forall|i: int| 0 <= i < o2.len() implies #[trigger] self.entries()[i]
                        == touched(old_self.entries(), id)[i] by {
                        if i < o2.len() - 1 {
                            let i2 = if i < p { i } else { i + 1 };
                            assert(o2[i] == o1[i2]);
                        }
                    }
                    assert(self.entries() =~= touched(old_self.entries(), id));
                    assert forall|a: int, b: int| 0 <= a < b < o2.len() implies o2[a] != o2[b] by {
                        let a2 = if a < p { a } else { a + 1 };
                        assert(o2[a] == o1[a2]);
                        if b < o2.len() - 1 {
                            let b2 = if b < p { b } else { b + 1 };
                            assert(o2[b] == o1[b2]);
                        } else {
                            assert(o1[a2] != o1[p as int]);
                        }
                    }
                    assert forall|x: u32| #[trigger] self.map@.contains_key(x) <==> o2.contains(x) by {
                        if o2.contains(x) {
                            let k = choose|k: int| 0 <= k < o2.len() && o2[k] == x;
                            if k < o2.len() - 1 {
                                let k2 = if k < p { k } else { k + 1 };
                                assert(o1[k2] == x);
                            }
                        }
                        if self.map@.contains_key(x) {
                            assert(o1.contains(x));
                            let k = choose|k: int| 0 <= k < o1.len() && o1[k] == x;
                            if k == p {
                                assert(o2[o2.len() - 1] == x);
                            } else {
                                let k2 = if k < p { k } else { k - 1 };
                                assert(o2[k2] == x);
                            }
                        }
                    }
                }
            },
            None => {
                proof {
                    lemma_find_id(old_self.entries(), id);
                    if find_id(old_self.entries(), id) >= 0 {
                        let f = find_id(old_self.entries(), id);
                        assert(old_self.order@[f] == id);
                    }
                }
            },
        }
    }

    /// A copy of the object of `id`, which becomes the most recently used entry.
    pub fn get(&mut self, id: u32) -> (r: Option<CopiedObject>)
        requires
            old(self).wf(),
        ensures
            final(self).wf(),
            final(self).entries() == touched(old(self).entries(), id),
            match r {
                Some(o) => lookup(old(self).entries(), id) == Some(o@),
                None => lookup(old(self).entries(), id) is None,
            },
    {
        proof {
            self.lemma_lookup(id);
        }
        let object = match self.map.get(&id) {
            Some(entry) => entry.0.clone(),
            None => {
                proof {
                    assert(touched(self.entries(), id) == self.entries());
                }
                return None;
            },
        };
        self.touch(id);
        Some(object)
    }
}


impl DecryptedCache {
    /// Drops and wipes the least recently used object.
    fn drop_oldest(&mut self)
        requires
            old(self).wf_core(),
            old(self).order@.len() > 0,
        ensures
            final(self).wf_core(),
            final(self).entries() == old(self).entries().drop_first(),
            final(self).order@.len() == old(self).order@.len() - 1,
    {
        let ghost before = *self;
        proof {
            before.lemma_unique();
        }
        if let Some(id) = self.order.pop_front() {
            proof {
                assert(before.order@.contains(id)) by {
                    assert(before.order@[0] == id);
                }
                before.lemma_remove_entry(0, before.map@.remove(id), self.order@);
                assert(before.order@.remove(0) =~= self.order@);
                assert(before.entries().remove(0) =~= before.entries().drop_first());
                lemma_total_remove(before.entries(), object_sizer(), 0);
            }
            if let Some((mut object, size)) = self.map.remove(&id) {
                self.bytes = self.bytes - size;
                object.zeroize();
            }
            proof {
                assert forall|x: u32| #[trigger] self.map@.contains_key(x) <==> self.order@.contains(x) by {
                    if self.order@.contains(x) {
                        let k = choose|k: int| 0 <= k < self.order@.len() && self.order@[k] == x;
                        assert(before.order@[k + 1] == x);
                        assert(before.order@[0] != before.order@[k + 1]);
                    }
                    if self.map@.contains_key(x) {
                        assert(before.order@.contains(x));
                        let k = choose|k: int| 0 <= k < before.order@.len() && before.order@[k] == x;
                        assert(k != 0);
                        assert(self.order@[k - 1] == x);
                    }
                }
            }
        }
    }

    /// Drops least recently used objects, wiping them, until the cache is
    /// within its limits.
    fn evict(&mut self)
        requires
            old(self).wf_core(),
        ensures
            final(self).wf(),
            final(self).entries() == evict_objects(old(self).entries()),
    {
        let ghost target = evict_objects(self.entries());
        while self.bytes > TOTAL_MAX_BYTES || self.order.len() > MAX_ITEMS
            invariant
                self.wf_core(),
                evict_objects(self.entries()) == target,
            decreases self.order@.len(),
        {
            proof {
                self.lemma_unique();
                if self.order@.len() == 0 {
                    assert(self.entries() =~= Seq::<(u32, ObjectView)>::empty());
                }
            }
            self.drop_oldest();
        }
    }

    /// Adding an absent id to the map and to the most recent end of the queue
    /// adds its entry at the most recent end.
    proof fn lemma_push_entry(w: Self, n: Self, id: u32, v: ObjectView)
        requires
            w.wf_core(),
            !w.map@.contains_key(id),
            n.map@.contains_key(id),
            n.map@ == w.map@.insert(id, n.map@[id]),
            n.map@[id].0@ == v,
            n.map@[id].1 == object_size_spec(v),
            n.map@[id].1 <= PER_ITEM_MAX_BYTES,
            n.order@ == w.order@.push(id),
            n.bytes == w.bytes + n.map@[id].1,
        ensures
            n.wf_core(),
            n.entries() == w.entries().push((id, v)),
    {
        let o = n.order@;
        assert(!w.order@.contains(id));
        assert forall|i: int| 0 <= i < o.len() implies #[trigger] n.entries()[i]
            == w.entries().push((id, v))[i] by {
            if i < o.len() - 1 {
                assert(o[i] == w.order@[i]);
                assert(w.order@[i] != id);
            }
        }
        assert(n.entries() =~= w.entries().push((id, v)));
        assert(w.entries().push((id, v)).drop_last() =~= w.entries());
        assert forall|a: int, b: int| 0 <= a < b < o.len() implies o[a] != o[b] by {
            assert(o[a] == w.order@[a]);
            if b < o.len() - 1 {
                assert(o[b] == w.order@[b]);
            }
        }
        assert forall|x: u32| #[trigger] n.map@.contains_key(x) <==> o.contains(x) by {
            if o.contains(x) && x != id {
                let k = choose|k: int| 0 <= k < o.len() && o[k] == x;
                assert(w.order@[k] == x);
            }
            if n.map@.contains_key(x) && x != id {
                assert(w.order@.contains(x));
                let k = choose|k: int| 0 <= k < w.order@.len() && w.order@[k] == x;
                assert(o[k] == x);
            }
            if x == id {
                assert(o[o.len() - 1] == id);
            }
        }
    }

    /// Caches `object` under `id` as the most recently used entry, unless it
    /// is larger than [`PER_ITEM_MAX_BYTES`]; then drops least recently used
    /// entries until the cache is within its limits.
    pub fn insert(&mut self, id: u32, object: CopiedObject)
        requires
            old(self).wf(),
        ensures
            final(self).wf(),
            final(self).entries() == object_inserted(old(self).entries(), id, object@),
    {
        let size = match object.checked_object_size() {
            Some(n) => n,
            None => return,
        };
        if size > PER_ITEM_MAX_BYTES {
            return;
        }
        let ghost v = object@;
        let ghost before = *self;
        proof {
            before.lemma_unique();
            lemma_without_absent(before.entries(), id);
        }
        self.remove(id);
        let ghost w = *self;
        proof {
            w.lemma_lookup(id);
        }
        self.map.insert(id, (object, size));
        self.order.push_back(id);
        self.bytes = self.bytes + size;
        proof {
            Self::lemma_push_entry(w, *self, id, v);
        }
        self.evict();
    }

    /// Drops and wipes every cached object.
    pub fn clear(&mut self)
        requires
            old(self).wf(),
        ensures
            final(self).wf(),
            final(self).entries() == Seq::<(u32, ObjectView)>::empty(),
    {
        while self.order.len() > 0
            invariant
                self.wf_core(),
            decreases self.order@.len(),
        {
            self.drop_oldest();
        }
        self.map.clear();
        self.order.clear();
        self.bytes = 0;
        assert(self.entries() =~= Seq::<(u32, ObjectView)>::empty());
    }
}

/// Cache of decrypted previews, keyed by history id.
pub struct DecryptedPreviewCache {
    map: HashMap<u32, (CopiedObjectPreview, usize)>,
    order: VecDeque<u32>,
    bytes: usize,
}

impl DecryptedPreviewCache {
    /// The cached objects, from least to most recently used.
    pub closed spec fn entries(&self) -> Seq<(u32, ObjectPreviewView)> {
        self.order@.map_values(|id: u32| (id, self.map@[id].0@))
    }

    /// The map and the queue hold the same ids, each once, the recorded sizes
    /// are the objects' sizes, and the byte count is their sum.
    closed spec fn wf_core(&self) -> bool {
        &&& self.order@.no_duplicates()
        &&& forall|id: u32| #[trigger] self.map@.contains_key(id) <==> self.order@.contains(id)
        &&& forall|id: u32| #[trigger]
            self.map@.contains_key(id) ==> self.map@[id].1 == preview_size_spec(self.map@[id].0@)
        &&& self.bytes == entries_total(self.entries(), preview_sizer())
    }

    /// The cache is consistent and within its limits.
    pub closed spec fn wf(&self) -> bool {
        &&& self.wf_core()
        &&& self.bytes <= TOTAL_MAX_BYTES
    }

    proof fn lemma_unique(&self)
        requires
            self.order@.no_duplicates(),
        ensures
            unique_ids(self.entries()),
            self.entries().len() == self.order@.len(),
            forall|i: int| 0 <= i < self.order@.len() ==> #[trigger] self.entries()[i].0 == self.order@[i],
    {
        let e = self.entries();
        assert forall|a: int, b: int| 0 <= a < b < e.len() implies #[trigger] e[a].0 != #[trigger] e[b].0 by {
            assert(self.order@[a] != self.order@[b]);
        }
    }

    /// An empty cache.
    pub fn new() -> (r: Self)
        ensures
            r.wf(),
            r.entries() == Seq::<(u32, ObjectPreviewView)>::empty(),
    {
        let r = DecryptedPreviewCache { map: HashMap::new(), order: VecDeque::new(), bytes: 0 };
        assert(r.entries() =~= Seq::<(u32, ObjectPreviewView)>::empty());
        r
    }
}


impl DecryptedPreviewCache {
    /// The entry at position `p` of the queue is the one of `order@[p]`, and
    /// taking out that id from both the map and the queue takes out exactly
    /// that entry.
    proof fn lemma_remove_entry(
        &self,
        p: int,
        map2: Map<u32, (CopiedObjectPreview, usize)>,
        order2: Seq<u32>,
    )
        requires
            self.wf_core(),
            0 <= p < self.order@.len(),
            map2 == self.map@.remove(self.order@[p]),
            order2 == self.order@.remove(p),
        ensures
            order2.map_values(|id: u32| (id, map2[id].0@)) == without_id(self.entries(), self.order@[p]),
            order2.map_values(|id: u32| (id, map2[id].0@)) == self.entries().remove(p),
            order2.no_duplicates(),
    {
        let id = self.order@[p];
        self.lemma_unique();
        lemma_find_id_unique(self.entries(), id, p);
        let e2 = order2.map_values(|x: u32| (x, map2[x].0@));
        assert forall|i: int| 0 <= i < e2.len() implies #[trigger] e2[i] == self.entries().remove(p)[i] by {
            let i2 = if i < p { i } else { i + 1 };
            assert(order2[i] == self.order@[i2]);
            assert(self.order@[i2] != id);
        }
        assert(e2 =~= self.entries().remove(p));
        assert forall|a: int, b: int| 0 <= a < b < order2.len() implies order2[a] != order2[b] by {
            let a2 = if a < p { a } else { a + 1 };
            let b2 = if b < p { b } else { b + 1 };
            assert(order2[a] == self.order@[a2]);
            assert(order2[b] == self.order@[b2]);
        }
    }

    /// Drops the preview of `id`, if it is cached, and wipes its payload.
    pub fn remove(&mut self, id: u32)
        requires
            old(self).wf(),
        ensures
            final(self).wf(),
            final(self).entries() == without_id(old(self).entries(), id),
    {
        let ghost old_self = *self;
        proof {
            old_self.lemma_unique();
        }
        match self.map.remove(&id) {
            Some((mut obj, size)) => {
                assert(old_self.map@.contains_key(id));
                assert(old_self.order@.contains(id));
                let pos = position_of(&self.order, id);
                match pos {
                    Some(p) => {
                        proof {
                            old_self.lemma_remove_entry(p as int, self.map@, old_self.order@.remove(p as int));
                            lemma_find_id_unique(old_self.entries(), id, p as int);
                            lemma_total_remove(old_self.entries(), preview_sizer(), p as int);
                        }
                        self.bytes = self.bytes - size;
                        self.order.remove(p);
                        assert(self.order@ == old_self.order@.remove(p as int));
                        assert(self.order@.no_duplicates());
                        assert forall|x: u32| #[trigger] self.map@.contains_key(x) <==> self.order@.contains(x) by {
                            if self.order@.contains(x) {
                                let k = choose|k: int| 0 <= k < self.order@.len() && self.order@[k] == x;
                                let k2 = if k < p { k } else { k + 1 };
                                assert(old_self.order@[k2] == x);
                                assert(x != id);
                            }
                            if self.map@.contains_key(x) {
                                assert(old_self.order@.contains(x));
                                let k = choose|k: int| 0 <= k < old_self.order@.len() && old_self.order@[k] == x;
                                assert(k != p);
                                let k2 = if k < p { k } else { k - 1 };
                                assert(self.order@[k2] == x);
                            }
                        }
                        assert(self.bytes == entries_total(self.entries(), preview_sizer()));
                        assert(self.wf_core());
                    },
                    None => {},
                }
                obj.preview.zeroize();
            },
            None => {
                proof {
                    lemma_find_id(old_self.entries(), id);
                    if find_id(old_self.entries(), id) >= 0 {
                        let f = find_id(old_self.entries(), id);
                        assert(old_self.order@[f] == id);
                    }
                    assert(self.entries() =~= old_self.entries());
                }
            },
        }
    }
}


impl DecryptedPreviewCache {
    /// The id `id` is cached exactly when it is in the queue, and then the
    /// lookup finds its preview.
    proof fn lemma_lookup(&self, id: u32)
        requires
            self.wf_core(),
        ensures
            self.map@.contains_key(id) ==> lookup(self.entries(), id) == Some(self.map@[id].0@),
            !self.map@.contains_key(id) ==> lookup(self.entries(), id) is None,
            !self.map@.contains_key(id) ==> find_id(self.entries(), id) < 0,
    {
        self.lemma_unique();
        lemma_find_id(self.entries(), id);
        if self.map@.contains_key(id) {
            assert(self.order@.contains(id));
            let k = choose|k: int| 0 <= k < self.order@.len() && self.order@[k] == id;
            lemma_lookup_at(self.entries(), k);
        } else {
            if find_id(self.entries(), id) >= 0 {
                let f = find_id(self.entries(), id);
                assert(self.order@[f] == id);
            }
        }
    }

    /// Marks `id` as the most recently used entry.
    fn touch(&mut self, id: u32)
        requires
            old(self).wf(),
        ensures
            final(self).wf(),
            final(self).entries() == touched(old(self).entries(), id),
    {
        let ghost old_self = *self;
        proof {
            old_self.lemma_unique();
            lemma_total_touched(old_self.entries(), preview_sizer(), id);
        }
        match position_of(&self.order, id) {
            Some(p) => {
                self.order.remove(p);
                self.order.push_back(id);
                proof {
                    let o1 = old_self.order@;
                    let o2 = self.order@;
                    lemma_find_id_unique(old_self.entries(), id, p as int);
                    assert(o2 == o1.remove(p as int).push(id));
                    assert forall|i: int| 0 <= i < o2.len() implies #[trigger] self.entries()[i]
                        == touched(old_self.entries(), id)[i] by {
                        if i < o2.len() - 1 {
                            let i2 = if i < p { i } else { i + 1 };
                            assert(o2[i] == o1[i2]);
                        }
                    }
                    assert(self.entries() =~= touched(old_self.entries(), id));
                    assert forall|a: int, b: int| 0 <= a < b < o2.len() implies o2[a] != o2[b] by {
                        let a2 = if a < p { a } else { a + 1 };
                        assert(o2[a] == o1[a2]);
                        if b < o2.len() - 1 {
                            let b2 = if b < p { b } else { b + 1 };
                            assert(o2[b] == o1[b2]);
                        } else {
                            assert(o1[a2] != o1[p as int]);
                        }
                    }
                    assert forall|x: u32| #[trigger] self.map@.contains_key(x) <==> o2.contains(x) by {
                        if o2.contains(x) {
                            let k = choose|k: int| 0 <= k < o2.len() && o2[k] == x;
                            if k < o2.len() - 1 {
                                let k2 = if k < p { k } else { k + 1 };
                                assert(o1[k2] == x);
                            }
                        }
                        if self.map@.contains_key(x) {
                            assert(o1.contains(x));
                            let k = choose|k: int| 0 <= k < o1.len() && o1[k] == x;
                            if k == p {
                                assert(o2[o2.len() - 1] == x);
                            } else {
                                let k2 = if k < p { k } else { k - 1 };
                                assert(o2[k2] == x);
                            }
                        }
                    }
                }
            },
            None => {
                proof {
                    lemma_find_id(old_self.entries(), id);
                    if find_id(old_self.entries(), id) >= 0 {
                        let f = find_id(old_self.entries(), id);
                        assert(old_self.order@[f] == id);
                    }
                }
            },
        }
    }

    /// A copy of the preview of `id`, which becomes the most recently used entry.
    pub fn get(&mut self, id: u32) -> (r: Option<CopiedObjectPreview>)
        requires
            old(self).wf(),
        ensures
            final(self).wf(),
            final(self).entries() == touched(old(self).entries(), id),
            match r {
                Some(o) => lookup(old(self).entries(), id) == Some(o@),
                None => lookup(old(self).entries(), id) is None,
            },
    {
        proof {
            self.lemma_lookup(id);
        }
        let object = match self.map.get(&id) {
            Some(entry) => entry.0.clone(),
            None => {
                proof {
                    assert(touched(self.entries(), id) == self.entries());
                }
                return None;
            },
        };
        self.touch(id);
        Some(object)
    }
}


impl DecryptedPreviewCache {
    /// Drops the least recently used preview and wipes its payload.
    fn drop_oldest(&mut self)
        requires
            old(self).wf_core(),
            old(self).order@.len() > 0,
        ensures
            final(self).wf_core(),
            final(self).entries() == old(self).entries().drop_first(),
            final(self).order@.len() == old(self).order@.len() - 1,
    {
        let ghost before = *self;
        proof {
            before.lemma_unique();
        }
        if let Some(id) = self.order.pop_front() {
            proof {
                assert(before.order@.contains(id)) by {
                    assert(before.order@[0] == id);
                }
                before.lemma_remove_entry(0, before.map@.remove(id), self.order@);
                assert(before.order@.remove(0) =~= self.order@);
                assert(before.entries().remove(0) =~= before.entries().drop_first());
                lemma_total_remove(before.entries(), preview_sizer(), 0);
            }
            if let Some((mut preview, size)) = self.map.remove(&id) {
                self.bytes = self.bytes - size;
                preview.preview.zeroize();
            }
            proof {
                assert forall|x: u32| #[trigger] self.map@.contains_key(x) <==> self.order@.contains(x) by {
                    if self.order@.contains(x) {
                        let k = choose|k: int| 0 <= k < self.order@.len() && self.order@[k] == x;
                        assert(before.order@[k + 1] == x);
                        assert(before.order@[0] != before.order@[k + 1]);
                    }
                    if self.map@.contains_key(x) {
                        assert(before.order@.contains(x));
                        let k = choose|k: int| 0 <= k < before.order@.len() && before.order@[k] == x;
                        assert(k != 0);
                        assert(self.order@[k - 1] == x);
                    }
                }
            }
        }
    }

    /// Drops least recently used previews, wiping them, until the cache is
    /// within its limit.
    fn evict(&mut self)
        requires
            old(self).wf_core(),
        ensures
            final(self).wf(),
            final(self).entries() == evict_previews(old(self).entries()),
    {
        let ghost target = evict_previews(self.entries());
        while self.bytes > TOTAL_MAX_BYTES
            invariant
                self.wf_core(),
                evict_previews(self.entries()) == target,
            decreases self.order@.len(),
        {
            proof {
                self.lemma_unique();
                if self.order@.len() == 0 {
                    assert(self.entries() =~= Seq::<(u32, ObjectPreviewView)>::empty());
                }
            }
            self.drop_oldest();
        }
    }

    /// Adding an absent id to the map and to the most recent end of the queue
    /// adds its entry at the most recent end.
    proof fn lemma_push_entry(w: Self, n: Self, id: u32, v: ObjectPreviewView)
        requires
            w.wf_core(),
            !w.map@.contains_key(id),
            n.map@.contains_key(id),
            n.map@ == w.map@.insert(id, n.map@[id]),
            n.map@[id].0@ == v,
            n.map@[id].1 == preview_size_spec(v),
            n.order@ == w.order@.push(id),
            n.bytes == w.bytes + n.map@[id].1,
        ensures
            n.wf_core(),
            n.entries() == w.entries().push((id, v)),
    {
        let o = n.order@;
        assert(!w.order@.contains(id));
        assert forall|i: int| 0 <= i < o.len() implies #[trigger] n.entries()[i]
            == w.entries().push((id, v))[i] by {
            if i < o.len() - 1 {
                assert(o[i] == w.order@[i]);
                assert(w.order@[i] != id);
            }
        }
        assert(n.entries() =~= w.entries().push((id, v)));
        assert(w.entries().push((id, v)).drop_last() =~= w.entries());
        assert forall|a: int, b: int| 0 <= a < b < o.len() implies o[a] != o[b] by {
            assert(o[a] == w.order@[a]);
            if b < o.len() - 1 {
                assert(o[b] == w.order@[b]);
            }
        }
        assert forall|x: u32| #[trigger] n.map@.contains_key(x) <==> o.contains(x) by {
            if o.contains(x) && x != id {
                let k = choose|k: int| 0 <= k < o.len() && o[k] == x;
                assert(w.order@[k] == x);
            }
            if n.map@.contains_key(x) && x != id {
                assert(w.order@.contains(x));
                let k = choose|k: int| 0 <= k < w.order@.len() && w.order@[k] == x;
                assert(o[k] == x);
            }
            if x == id {
                assert(o[o.len() - 1] == id);
            }
        }
    }

    /// Caches `preview` under `id` as the most recently used entry, then drops
    /// least recently used entries until the cache is within its limit.
    pub fn insert(&mut self, id: u32, preview: CopiedObjectPreview)
        requires
            old(self).wf(),
        ensures
            final(self).wf(),
            final(self).entries() == preview_inserted(old(self).entries(), id, preview@),
    {
        let fits = match preview.checked_object_size() {
            Some(n) => n <= TOTAL_MAX_BYTES,
            None => false,
        };
        if !fits {
            proof {
                lemma_evict_previews_oversized(without_id(old(self).entries(), id).push((id, preview@)));
            }
            let mut dropped = preview;
            dropped.preview.zeroize();
            self.clear();
            return;
        }
        let size = preview.object_size();
        let ghost v = preview@;
        let ghost before = *self;
        proof {
            before.lemma_unique();
            lemma_without_absent(before.entries(), id);
        }
        self.remove(id);
        let ghost w = *self;
        proof {
            w.lemma_lookup(id);
        }
        self.map.insert(id, (preview, size));
        self.order.push_back(id);
        self.bytes = self.bytes + size;
        proof {
            Self::lemma_push_entry(w, *self, id, v);
        }
        self.evict();
    }

    /// Drops every cached preview and wipes its payload.
    pub fn clear(&mut self)
        requires
            old(self).wf(),
        ensures
            final(self).wf(),
            final(self).entries() == Seq::<(u32, ObjectPreviewView)>::empty(),
    {
        while self.order.len() > 0
            invariant
                self.wf_core(),
            decreases self.order@.len(),
        {
            self.drop_oldest();
        }
        self.map.clear();
        self.order.clear();
        self.bytes = 0;
        assert(self.entries() =~= Seq::<(u32, ObjectPreviewView)>::empty());
    }
}


impl Default for DecryptedCache {
    fn default() -> (r: Self)
        ensures
            r.wf(),
            r.entries() == Seq::<(u32, ObjectView)>::empty(),
    {
        DecryptedCache::new()
    }
}

impl Default for DecryptedPreviewCache {
    fn default() -> (r: Self)
        ensures
            r.wf(),
            r.entries() == Seq::<(u32, ObjectPreviewView)>::empty(),
    {
        DecryptedPreviewCache::new()
    }
}

/// Eviction keeps a most recent part of the entries, within the limits.
pub proof fn lemma_evict_objects_suffix(s: Seq<(u32, ObjectView)>)
    ensures
        exists|k: int| 0 <= k <= s.len() && #[trigger] s.subrange(k, s.len() as int) == evict_objects(s),
        evict_objects(s).len() > 0 ==> entries_total(evict_objects(s), object_sizer()) <= TOTAL_MAX_BYTES
            && evict_objects(s).len() <= MAX_ITEMS,
    decreases s.len(),
{
    if s.len() > 0 && (entries_total(s, object_sizer()) > TOTAL_MAX_BYTES || s.len() > MAX_ITEMS) {
        lemma_evict_objects_suffix(s.drop_first());
        let k = choose|k: int| 0 <= k <= s.drop_first().len()
            && #[trigger] s.drop_first().subrange(k, s.drop_first().len() as int) == evict_objects(s.drop_first());
        assert(s.subrange(k + 1, s.len() as int) =~= s.drop_first().subrange(k, s.drop_first().len() as int));
    } else {
        assert(s.subrange(0, s.len() as int) =~= s);
    }
}

/// Eviction keeps a most recent part of the previews, within the limit.
pub proof fn lemma_evict_previews_suffix(s: Seq<(u32, ObjectPreviewView)>)
    ensures
        exists|k: int| 0 <= k <= s.len() && #[trigger] s.subrange(k, s.len() as int) == evict_previews(s),
        entries_total(evict_previews(s), preview_sizer()) <= TOTAL_MAX_BYTES || evict_previews(s).len() == 0,
    decreases s.len(),
{
    if s.len() > 0 && entries_total(s, preview_sizer()) > TOTAL_MAX_BYTES {
        lemma_evict_previews_suffix(s.drop_first());
        let k = choose|k: int| 0 <= k <= s.drop_first().len()
            && #[trigger] s.drop_first().subrange(k, s.drop_first().len() as int) == evict_previews(s.drop_first());
        assert(s.subrange(k + 1, s.len() as int) =~= s.drop_first().subrange(k, s.drop_first().len() as int));
    } else {
        assert(s.subrange(0, s.len() as int) =~= s);
    }
}

/// Eviction never drops the most recent object when that object alone fits.
proof fn lemma_evict_objects_keeps_newest(s: Seq<(u32, ObjectView)>)
    requires
        s.len() > 0,
        object_size_spec(s.last().1) <= TOTAL_MAX_BYTES,
    ensures
        evict_objects(s).len() > 0,
        evict_objects(s).last() == s.last(),
    decreases s.len(),
{
    if s.len() > 0 && (entries_total(s, object_sizer()) > TOTAL_MAX_BYTES || s.len() > MAX_ITEMS) {
        if s.len() == 1 {
            assert(s.drop_last() =~= Seq::<(u32, ObjectView)>::empty());
            assert(entries_total(s.drop_last(), object_sizer()) == 0);
            assert(object_sizer()(s.last().1) == object_size_spec(s.last().1));
            assert(entries_total(s, object_sizer()) == object_size_spec(s.last().1));
        } else {
            assert(s.drop_first().last() == s.last());
            lemma_evict_objects_keeps_newest(s.drop_first());
        }
    }
}

/// A preview larger than the whole cache, once inserted, leaves nothing:
/// eviction drops every entry, the new one last.
proof fn lemma_evict_previews_oversized(s: Seq<(u32, ObjectPreviewView)>)
    requires
        s.len() > 0,
        preview_size_spec(s.last().1) > TOTAL_MAX_BYTES,
    ensures
        evict_previews(s) == Seq::<(u32, ObjectPreviewView)>::empty(),
    decreases s.len(),
{
    lemma_total_ge_entry(s, preview_sizer(), s.len() - 1);
    assert(preview_sizer()(s.last().1) == preview_size_spec(s.last().1));
    assert(s[s.len() - 1] == s.last());
    assert(entries_total(s, preview_sizer()) > TOTAL_MAX_BYTES);
    assert(evict_previews(s) == evict_previews(s.drop_first()));
    if s.len() == 1 {
        assert(s.drop_first() =~= Seq::<(u32, ObjectPreviewView)>::empty());
    } else {
        assert(s.drop_first().last() == s.last());
        lemma_evict_previews_oversized(s.drop_first());
    }
}

/// Eviction never drops the most recent preview when that preview alone fits.
proof fn lemma_evict_previews_keeps_newest(s: Seq<(u32, ObjectPreviewView)>)
    requires
        s.len() > 0,
        preview_size_spec(s.last().1) <= TOTAL_MAX_BYTES,
    ensures
        evict_previews(s).len() > 0,
        evict_previews(s).last() == s.last(),
    decreases s.len(),
{
    if s.len() > 0 && entries_total(s, preview_sizer()) > TOTAL_MAX_BYTES {
        if s.len() == 1 {
            assert(s.drop_last() =~= Seq::<(u32, ObjectPreviewView)>::empty());
            assert(entries_total(s.drop_last(), preview_sizer()) == 0);
            assert(preview_sizer()(s.last().1) == preview_size_spec(s.last().1));
            assert(entries_total(s, preview_sizer()) == preview_size_spec(s.last().1));
        } else {
            assert(s.drop_first().last() == s.last());
            lemma_evict_previews_keeps_newest(s.drop_first());
        }
    }
}

/// Reading back what was just cached: after `insert(id, v)` of an object no
/// larger than [`PER_ITEM_MAX_BYTES`], `get(id)` finds `v`.
pub proof fn lemma_object_insert_then_get(s: Seq<(u32, ObjectView)>, id: u32, v: ObjectView)
    requires
        object_size_spec(v) <= PER_ITEM_MAX_BYTES,
    ensures
        lookup(object_inserted(s, id, v), id) == Some(v),
{
    let t = without_id(s, id).push((id, v));
    lemma_evict_objects_keeps_newest(t);
    let e = evict_objects(t);
    assert(e.last() == (id, v));
    assert(find_id(e, id) == e.len() - 1);
}

/// Reading back what was just cached: after `insert(id, v)` of a preview no
/// larger than [`TOTAL_MAX_BYTES`], `get(id)` finds `v`.
pub proof fn lemma_preview_insert_then_get(s: Seq<(u32, ObjectPreviewView)>, id: u32, v: ObjectPreviewView)
    requires
        preview_size_spec(v) <= TOTAL_MAX_BYTES,
    ensures
        lookup(preview_inserted(s, id, v), id) == Some(v),
{
    let t = without_id(s, id).push((id, v));
    lemma_evict_previews_keeps_newest(t);
    let e = evict_previews(t);
    assert(e.last() == (id, v));
    assert(find_id(e, id) == e.len() - 1);
}

/// Every cache stays within its limits: at most [`TOTAL_MAX_BYTES`] bytes,
/// at most [`MAX_ITEMS`] objects, none larger than [`PER_ITEM_MAX_BYTES`],
/// and no id twice.
pub proof fn lemma_object_cache_limits(c: &DecryptedCache)
    requires
        c.wf(),
    ensures
        entries_total(c.entries(), object_sizer()) <= TOTAL_MAX_BYTES,
        c.entries().len() <= MAX_ITEMS,
        unique_ids(c.entries()),
        forall|i: int| 0 <= i < c.entries().len() ==> object_size_spec(#[trigger] c.entries()[i].1)
            <= PER_ITEM_MAX_BYTES,
{
    c.lemma_unique();
    assert forall|i: int| 0 <= i < c.entries().len() implies object_size_spec(#[trigger] c.entries()[i].1)
        <= PER_ITEM_MAX_BYTES by {
        let id = c.order@[i];
        assert(c.map@.contains_key(id));
    }
}

/// The preview cache stays within [`TOTAL_MAX_BYTES`] and holds no id twice.
pub proof fn lemma_preview_cache_limits(c: &DecryptedPreviewCache)
    requires
        c.wf(),
    ensures
        entries_total(c.entries(), preview_sizer()) <= TOTAL_MAX_BYTES,
        unique_ids(c.entries()),
{
    c.lemma_unique();
}


/// Reading an object only moves it to the most recent end: every id still
/// finds what it found before.
pub proof fn lemma_object_get_keeps_contents(c: &DecryptedCache, id: u32, x: u32)
    requires
        c.wf(),
    ensures
        lookup(touched(c.entries(), id), x) == lookup(c.entries(), x),
        touched(c.entries(), id).len() == c.entries().len(),
{
    lemma_object_cache_limits(c);
    lemma_touched_lookup(c.entries(), id, x);
    lemma_total_touched(c.entries(), object_sizer(), id);
}

/// Reading a preview only moves it to the most recent end: every id still
/// finds what it found before.
pub proof fn lemma_preview_get_keeps_contents(c: &DecryptedPreviewCache, id: u32, x: u32)
    requires
        c.wf(),
    ensures
        lookup(touched(c.entries(), id), x) == lookup(c.entries(), x),
        touched(c.entries(), id).len() == c.entries().len(),
{
    lemma_preview_cache_limits(c);
    lemma_touched_lookup(c.entries(), id, x);
    lemma_total_touched(c.entries(), preview_sizer(), id);
}

/// After `remove(id)`, `get(id)` finds nothing and every other id finds what
/// it found before.
pub proof fn lemma_object_remove_then_get(c: &DecryptedCache, id: u32, x: u32)
    requires
        c.wf(),
    ensures
        lookup(without_id(c.entries(), id), id) is None,
        x != id ==> lookup(without_id(c.entries(), id), x) == lookup(c.entries(), x),
{
    lemma_object_cache_limits(c);
    lemma_without_absent(c.entries(), id);
    if x != id {
        lemma_without_lookup_other(c.entries(), id, x);
    }
}

/// After `remove(id)`, `get(id)` finds nothing and every other id finds what
/// it found before.
pub proof fn lemma_preview_remove_then_get(c: &DecryptedPreviewCache, id: u32, x: u32)
    requires
        c.wf(),
    ensures
        lookup(without_id(c.entries(), id), id) is None,
        x != id ==> lookup(without_id(c.entries(), id), x) == lookup(c.entries(), x),
{
    lemma_preview_cache_limits(c);
    lemma_without_absent(c.entries(), id);
    if x != id {
        lemma_without_lookup_other(c.entries(), id, x);
    }
}

/// Inserting under `id` leaves every other id finding what it found before,
/// or nothing once evicted.
pub proof fn lemma_object_insert_other(c: &DecryptedCache, id: u32, v: ObjectView, x: u32)
    requires
        c.wf(),
        x != id,
    ensures
        lookup(object_inserted(c.entries(), id, v), x) is None || lookup(object_inserted(c.entries(), id, v), x)
            == lookup(c.entries(), x),
{
    lemma_object_cache_limits(c);
    let s = c.entries();
    if object_size_spec(v) <= PER_ITEM_MAX_BYTES {
        let t = without_id(s, id).push((id, v));
        lemma_without_absent(s, id);
        lemma_unique_push(without_id(s, id), (id, v));
        lemma_without_lookup_other(s, id, x);
        lemma_push_lookup_other(without_id(s, id), (id, v), x);
        lemma_evict_objects_suffix(t);
        let k = choose|k: int| 0 <= k <= t.len() && #[trigger] t.subrange(k, t.len() as int) == evict_objects(t);
        lemma_lookup_suffix(t, k, x);
    }
}

/// Inserting under `id` leaves every other id finding what it found before,
/// or nothing once evicted.
pub proof fn lemma_preview_insert_other(c: &DecryptedPreviewCache, id: u32, v: ObjectPreviewView, x: u32)
    requires
        c.wf(),
        x != id,
    ensures
        lookup(preview_inserted(c.entries(), id, v), x) is None || lookup(preview_inserted(c.entries(), id, v), x)
            == lookup(c.entries(), x),
{
    lemma_preview_cache_limits(c);
    let s = c.entries();
    let t = without_id(s, id).push((id, v));
    lemma_without_absent(s, id);
    lemma_unique_push(without_id(s, id), (id, v));
    lemma_without_lookup_other(s, id, x);
    lemma_push_lookup_other(without_id(s, id), (id, v), x);
    lemma_evict_previews_suffix(t);
    let k = choose|k: int| 0 <= k <= t.len() && #[trigger] t.subrange(k, t.len() as int) == evict_previews(t);
    lemma_lookup_suffix(t, k, x);
}


} // verus!
