//! The history as the user interface lists it: one preview per entry, built
//! from the preview cache where it can be and from the entry otherwise.
use vstd::prelude::*;

use crate::cache::{preview_inserted, preview_sizer, DecryptedPreviewCache};
use crate::crypto::{
    entry_id, payload_object, read_outcome, EntryView, HistoryEntry, PlaintextPayload, RecordView, Vault,
};
use crate::search::vault_identity;
use crate::model::{preview_of, preview_size_spec, wipe_bytes, AppError, CopiedObjectPreview, ObjectPreviewView};
use crate::history::{repaired, repaired_once};
use crate::recency::{entries_total, lookup, touched, without_id};

verus! {

/// The preview cache after a freshly built preview `v` is cached under its
/// own id.
pub open spec fn cached_after(s: Seq<(u32, ObjectPreviewView)>, v: ObjectPreviewView) -> Seq<
    (u32, ObjectPreviewView),
> {
    preview_inserted(s, v.id, v)
}

/// The id and date that an encrypted record should be listed under, when
/// its payload `p` carries others than the record does.
pub open spec fn repair_for(p: PlaintextPayload, r: RecordView) -> Option<(u32, u64)> {
    let o = payload_object(p, r);
    if o.id != r.id || o.date != r.date {
        Some((o.id, o.date))
    } else {
        None
    }
}

/// One step of listing: entry `e` gets `preview`, records `repair`, and the
/// preview cache goes from `before` to `after`. A cached preview is taken as
/// it is and becomes the most recently used; otherwise the preview is built
/// from the entry (for an encrypted one, from the payload that `parse` reads
/// from its plaintext under `identity`) and cached.
pub open spec fn preview_step<F: Fn(&[u8]) -> Result<PlaintextPayload, AppError>>(
    before: Seq<(u32, ObjectPreviewView)>,
    e: EntryView,
    preview: ObjectPreviewView,
    repair: Option<(u32, u64)>,
    after: Seq<(u32, ObjectPreviewView)>,
    identity: Option<Seq<char>>,
    parse: F,
) -> bool {
    match lookup(before, entry_id(e)) {
        Some(p) => preview == p && repair is None && after == touched(before, entry_id(e)),
        None => after == cached_after(before, preview) && match e {
            EntryView::Plain(o) => preview == preview_of(o) && repair is None,
            EntryView::Encrypted(r) => identity matches Some(id) && exists|p: PlaintextPayload|
                #[trigger] read_outcome(r, id, parse, Ok(p)) && preview == preview_of(payload_object(p, r)) && repair
                    == repair_for(p, r),
        },
    }
}

/// The repairs recorded along a listing, each with the position of its entry.
pub open spec fn repair_list(reps: Seq<Option<(u32, u64)>>) -> Seq<(usize, u32, u64)>
    decreases reps.len(),
{
    if reps.len() == 0 {
        Seq::empty()
    } else {
        let rest = repair_list(reps.drop_last());
        match reps.last() {
            Some((id, date)) => rest.push(((reps.len() - 1) as usize, id, date)),
            None => rest,
        }
    }
}

/// Lists the history: one preview per entry, in order, and the repairs to
/// store for encrypted records whose payload carries another id or date.
/// A locked vault lists nothing. Decrypted objects are wiped once their
/// preview is built.
pub fn load_previews<F>(
    history: &Vec<HistoryEntry>,
    vault: &Vault,
    cache: &mut DecryptedPreviewCache,
    parse: F,
) -> (r: Result<(Vec<CopiedObjectPreview>, Vec<(usize, u32, u64)>), AppError>) where
    F: Fn(&[u8]) -> Result<PlaintextPayload, AppError>,

    requires
        old(cache).wf(),
        forall|b: &[u8]| #[trigger] parse.requires((b,)),
    ensures
        final(cache).wf(),
        vault.recipient is Some && vault.identity is None ==> {
            &&& r == Err::<(Vec<CopiedObjectPreview>, Vec<(usize, u32, u64)>), AppError>(AppError::Locked)
            &&& final(cache).entries() == old(cache).entries()
        },
        r matches Ok((previews, repairs)) ==> exists|
            states: Seq<Seq<(u32, ObjectPreviewView)>>,
            reps: Seq<Option<(u32, u64)>>,
        |
            {
                &&& states.len() == history.len() + 1
                &&& reps.len() == history.len()
                &&& previews.len() == history.len()
                &&& states[0] == old(cache).entries()
                &&& states[history.len() as int] == final(cache).entries()
                &&& forall|i: int|
                    #![trigger history@[i]]
                    0 <= i < history.len() ==> preview_step(
                        states[i],
                        history@[i]@,
                        previews@[i]@,
                        reps[i],
                        states[i + 1],
                        vault_identity(*vault),
                        parse,
                    )
                &&& repairs@ == repair_list(reps)
            },
        r matches Err(e) ==> (e is Locked && vault.identity is None && (vault.recipient is Some || exists|j: int|
            0 <= j < history.len() && (#[trigger] history@[j]) is Encrypted)) || exists|i: int|
            0 <= i < history.len() && match (#[trigger] history@[i], vault_identity(*vault)) {
                (HistoryEntry::Encrypted(record), Some(id)) => read_outcome(record@, id, parse, Err(e)),
                _ => false,
            },
        !(vault.recipient is Some && vault.identity is None) && (forall|i: int|
            0 <= i < history.len() ==> (#[trigger] history@[i]) is Plain) ==> r is Ok,
{
    if vault.is_locked() {
        return Err(AppError::Locked);
    }
    let ghost mut states: Seq<Seq<(u32, ObjectPreviewView)>> = seq![cache.entries()];
    let ghost mut reps: Seq<Option<(u32, u64)>> = Seq::empty();
    let mut previews: Vec<CopiedObjectPreview> = Vec::new();
    let mut repairs: Vec<(usize, u32, u64)> = Vec::new();
    let mut i: usize = 0;
    while i < history.len()
        invariant
            i <= history@.len(),
            cache.wf(),
            states.len() == i + 1,
            reps.len() == i,
            previews.len() == i,
            states[0] == old(cache).entries(),
            states[i as int] == cache.entries(),
            forall|j: int|
                #![trigger history@[j]]
                0 <= j < i ==> preview_step(
                    states[j],
                    history@[j]@,
                    previews@[j]@,
                    reps[j],
                    states[j + 1],
                    vault_identity(*vault),
                    parse,
                ),
            repairs@ == repair_list(reps),
            forall|b: &[u8]| #[trigger] parse.requires((b,)),
            !(vault.recipient is Some && vault.identity is None),
        decreases history@.len() - i,
    {
        let entry = &history[i];
        let id = entry.id();
        let ghost s_before = cache.entries();
        let hit = cache.get(id);
        let ghost mut rep: Option<(u32, u64)> = None;
        let preview = match hit {
            Some(p) => p,
            None => {
                let built = match entry {
                    HistoryEntry::Plain(o) => CopiedObjectPreview::from_full(o),
                    HistoryEntry::Encrypted(record) => {
                        let identity = match &vault.identity {
                            Some(x) => x,
                            None => return Err(AppError::Locked),
                        };
                        let ghost hi = history@[i as int];
                        let mut bytes = match record.decrypt_with_identity(identity.as_str()) {
                            Ok(b) => b,
                            Err(err) => {
                                assert(read_outcome(record@, identity@, parse, Err(err)));
                                assert(hi matches HistoryEntry::Encrypted(rec) && read_outcome(rec@, identity@, parse, Err(err)));
                                return Err(err);
                            },
                        };
                        let parsed = parse(bytes.as_slice());
                        wipe_bytes(&mut bytes);
                        let payload = match parsed {
                            Ok(p) => p,
                            Err(err) => {
                                assert(read_outcome(record@, identity@, parse, Err(err)));
                                assert(hi matches HistoryEntry::Encrypted(rec) && read_outcome(rec@, identity@, parse, Err(err)));
                                return Err(err);
                            },
                        };
                        assert(read_outcome(record@, identity@, parse, Ok(payload)));
                        let ghost p0 = payload;
                        let repair = payload.repair_of(record);
                        if let Some((new_id, new_date)) = repair {
                            repairs.push((i, new_id, new_date));
                        }
                        proof {
                            rep = repair;
                        }
                        let mut full = payload.into_object(record);
                        let built = CopiedObjectPreview::from_full(&full);
                        full.zeroize();
                        assert(built@ == preview_of(payload_object(p0, record@)));
                        assert(rep == repair_for(p0, record@));
                        let ghost idt = vault_identity(*vault);
                        assert(idt matches Some(t) && t == identity@);
                        assert(idt matches Some(t) && exists|p: PlaintextPayload|
                            #[trigger] read_outcome(record@, t, parse, Ok(p)) && built@ == preview_of(
                                payload_object(p, record@),
                            ) && rep == repair_for(p, record@));
                        built
                    },
                };
                cache.insert(built.id, built.clone());
                built
            },
        };
        proof {
            let r0 = reps;
            reps = reps.push(rep);
            states = states.push(cache.entries());
            assert(reps.drop_last() =~= r0);
            assert(preview_step(states[i as int], history@[i as int]@, preview@, reps[i as int], states[i + 1], vault_identity(*vault), parse));
        }
        previews.push(preview);
        i = i + 1;
    }
    Ok((previews, repairs))
}

/// Entry `e` after its repair `rep` is stored: an encrypted record listed
/// under the repaired id and date; anything else as it was.
pub open spec fn after_repair(e: EntryView, rep: Option<(u32, u64)>) -> EntryView {
    match (e, rep) {
        (EntryView::Encrypted(r), Some((id, date))) => EntryView::Encrypted(
            RecordView { id, date, ciphertext: r.ciphertext },
        ),
        _ => e,
    }
}

/// Storing the repairs that a listing records lists each repaired record
/// under the id and date its payload carries, and leaves every other entry
/// as it was.
pub proof fn lemma_stored_repairs(h: Seq<EntryView>, reps: Seq<Option<(u32, u64)>>)
    requires
        reps.len() == h.len(),
        h.len() <= usize::MAX,
    ensures
        repaired(h, repair_list(reps)).len() == h.len(),
        forall|i: int| 0 <= i < h.len() ==> #[trigger] repaired(h, repair_list(reps))[i] == after_repair(h[i], reps[i]),
{
    lemma_stored_repairs_prefix(h, reps, h.len() as int);
    assert(reps.take(h.len() as int) =~= reps);
}

/// `lemma_stored_repairs` for the repairs of the first `k` entries.
proof fn lemma_stored_repairs_prefix(h: Seq<EntryView>, reps: Seq<Option<(u32, u64)>>, k: int)
    requires
        reps.len() == h.len(),
        h.len() <= usize::MAX,
        0 <= k <= h.len(),
    ensures
        repaired(h, repair_list(reps.take(k))).len() == h.len(),
        forall|i: int|
            0 <= i < h.len() ==> #[trigger] repaired(h, repair_list(reps.take(k)))[i] == if i < k {
                after_repair(h[i], reps[i])
            } else {
                h[i]
            },
    decreases k,
{
    if k == 0 {
        assert(reps.take(0) =~= Seq::<Option<(u32, u64)>>::empty());
    } else {
        lemma_stored_repairs_prefix(h, reps, k - 1);
        let t = reps.take(k);
        assert(t.drop_last() =~= reps.take(k - 1));
        let before = repaired(h, repair_list(reps.take(k - 1)));
        let list = repair_list(t);
        match t.last() {
            Some((id, date)) => {
                let x = ((k - 1) as usize, id, date);
                assert(list == repair_list(reps.take(k - 1)).push(x));
                assert(list.drop_last() =~= repair_list(reps.take(k - 1)));
                assert(repaired(h, list) == repaired_once(before, x));
                assert(before[k - 1] == h[k - 1]);
            },
            None => {
                assert(list == repair_list(reps.take(k - 1)));
            },
        }
    }
}

} // verus!
