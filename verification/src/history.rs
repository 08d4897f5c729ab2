//! The rules that govern the stored history: ids of new entries, repeated
//! copies, expiry, deletion, search and repair of entries.
use vstd::prelude::*;

use crate::crypto::{
    content_hash, content_hash_spec, entry_date, entry_id, low_order_recipient, payload_object, read_outcome, recipient_parses,
    sealed_entry, EncryptedRecord, EntryView, HistoryEntry, PlaintextPayload, RecordView,
};
use crate::entry::identity_text;
use crate::migration::{sealed_from, sealed_object, serialize_fails};
use crate::model::{ms_per_unit_spec, wipe_bytes, AppError, CopiedObject, ObjectView, RetentionUnit};

verus! {

/// The views of a list of entries.
pub open spec fn entries_view(h: Seq<HistoryEntry>) -> Seq<EntryView> {
    h.map_values(|e: HistoryEntry| e@)
}

/// The largest id in a list of entries, `None` for an empty list.
pub open spec fn max_id(h: Seq<EntryView>) -> Option<u32>
    decreases h.len(),
{
    if h.len() == 0 {
        None
    } else {
        match max_id(h.drop_last()) {
            None => Some(entry_id(h.last())),
            Some(m) => Some(if entry_id(h.last()) > m { entry_id(h.last()) } else { m }),
        }
    }
}

/// The message given when every id is taken.
pub open spec fn id_space_exhausted_message() -> Seq<char> {
    "History ID space exhausted. Clear some entries."@
}

/// `max_id` is an id of the list, at least as large as every id of it.
pub proof fn lemma_max_id(h: Seq<EntryView>)
    ensures
        h.len() == 0 <==> max_id(h) is None,
        max_id(h) matches Some(m) ==> (forall|i: int| 0 <= i < h.len() ==> entry_id(#[trigger] h[i]) <= m)
            && exists|i: int| 0 <= i < h.len() && entry_id(#[trigger] h[i]) == m,
    decreases h.len(),
{
    if h.len() > 0 {
        lemma_max_id(h.drop_last());
        let m = max_id(h).unwrap();
        assert forall|i: int| 0 <= i < h.len() implies entry_id(#[trigger] h[i]) <= m by {
            if i < h.len() - 1 {
                assert(h.drop_last()[i] == h[i]);
            }
        }
        if entry_id(h.last()) == m {
            assert(entry_id(h[h.len() - 1]) == m);
        } else {
            let k = choose|k: int| 0 <= k < h.drop_last().len() && entry_id(#[trigger] h.drop_last()[k]) == m;
            assert(h.drop_last()[k] == h[k]);
        }
    }
}

/// The id for a new entry: one more than the largest id, or 1 for an empty
/// history; an error when the largest id is already `u32::MAX`.
pub fn next_history_id(history: &Vec<HistoryEntry>) -> (r: Result<u32, AppError>)
    ensures
        match max_id(entries_view(history@)) {
            None => r == Ok::<u32, AppError>(1),
            Some(m) => if m == u32::MAX {
                r matches Err(AppError::Custom(msg)) && msg@ == id_space_exhausted_message()
            } else {
                r == Ok::<u32, AppError>((m + 1) as u32)
            },
        },
        r matches Ok(id) ==> forall|i: int| 0 <= i < history@.len() ==> entry_id(#[trigger] history@[i]@) < id,
{
    let mut max: Option<u32> = None;
    let mut i: usize = 0;
    while i < history.len()
        invariant
            i <= history@.len(),
            max == max_id(entries_view(history@).subrange(0, i as int)),
        decreases history@.len() - i,
    {
        proof {
            let v = entries_view(history@);
            assert(v.subrange(0, i as int + 1).drop_last() =~= v.subrange(0, i as int));
        }
        let id = history[i].id();
        max = match max {
            None => Some(id),
            Some(m) => Some(if id > m { id } else { m }),
        };
        i = i + 1;
    }
    proof {
        let v = entries_view(history@);
        assert(v.subrange(0, history@.len() as int) =~= v);
        lemma_max_id(v);
        assert forall|j: int| 0 <= j < history@.len() implies entry_id(#[trigger] history@[j]@) <= max_id(v).unwrap() by {
            assert(v[j] == history@[j]@);
        }
    }
    match max {
        Some(m) => match m.checked_add(1) {
            Some(id) => Ok(id),
            None => {
                let msg = "History ID space exhausted. Clear some entries.";
                Err(AppError::Custom(msg.to_owned()))
            },
        },
        None => Ok(1),
    }
}


/// Whether a newly copied payload with fingerprint `new_hash` repeats the
/// previous copy: the remembered fingerprint when there is one, else the last
/// entry's when it is stored in plain.
pub open spec fn is_duplicate_spec(last_hash: Option<Seq<char>>, history: Seq<EntryView>, new_hash: Seq<char>) -> bool {
    match last_hash {
        Some(h) => h == new_hash,
        None => history.len() > 0 && match history.last() {
            EntryView::Plain(o) => content_hash_spec(o.content) == new_hash,
            EntryView::Encrypted(_) => false,
        },
    }
}

/// Whether a newly copied payload repeats the previous copy.
pub fn is_duplicate(last_hash: &Option<String>, history: &Vec<HistoryEntry>, new_hash: &String) -> (r: bool)
    ensures
        r == is_duplicate_spec(
            match last_hash {
                Some(h) => Some(h@),
                None => None,
            },
            entries_view(history@),
            new_hash@,
        ),
{
    match last_hash {
        Some(h) => *h == *new_hash,
        None => {
            if history.len() == 0 {
                return false;
            }
            match &history[history.len() - 1] {
                HistoryEntry::Plain(o) => content_hash(&o.content) == *new_hash,
                HistoryEntry::Encrypted(_) => false,
            }
        },
    }
}

/// The id a new entry gets: one more than the largest id, 1 for an empty
/// history, and none when the largest id is already `u32::MAX`.
pub open spec fn next_id_spec(h: Seq<EntryView>) -> Option<u32> {
    match max_id(h) {
        None => Some(1u32),
        Some(m) => if m == u32::MAX {
            None
        } else {
            Some((m + 1) as u32)
        },
    }
}

/// A new entry's id is fresh: larger than every id already in the history.
pub proof fn lemma_next_id_fresh(h: Seq<EntryView>)
    ensures
        next_id_spec(h) matches Some(id) ==> forall|i: int| 0 <= i < h.len() ==> entry_id(#[trigger] h[i]) < id,
{
    lemma_max_id(h);
}

/// `object` under another id.
pub open spec fn with_id(object: ObjectView, id: u32) -> ObjectView {
    ObjectView { id, ..object }
}

/// Records a newly copied `object` at the end of the history, unless it
/// repeats the previous copy. It gets the next id, and is stored encrypted to
/// the recipient written as `recipient` when there is one (`serialize` turns its payload into the
/// bytes that are encrypted; both are wiped afterwards), in plain otherwise.
/// Returns the fingerprint of its content, to be remembered as the last
/// copy's once the history is saved, or `None` for a repeated copy.
pub fn append_entry<F>(
    history: &mut Vec<HistoryEntry>,
    object: &mut CopiedObject,
    last_hash: &Option<String>,
    recipient: Option<&str>,
    serialize: F,
) -> (r: Result<Option<String>, AppError>) where F: Fn(&PlaintextPayload) -> Result<Vec<u8>, AppError>
    requires
        forall|p: &PlaintextPayload| #[trigger] serialize.requires((p,)),
    ensures
        ({
            let h = entries_view(old(history)@);
            let last = match last_hash {
                Some(x) => Some(x@),
                None => None,
            };
            let hash = content_hash_spec(old(object).content@);
            &&& is_duplicate_spec(last, h, hash) ==> {
                &&& r == Ok::<Option<String>, AppError>(None)
                &&& final(history)@ == old(history)@
                &&& final(object)@ == old(object)@
            }
            &&& !is_duplicate_spec(last, h, hash) && next_id_spec(h) is None ==> {
                &&& r matches Err(AppError::Custom(msg)) && msg@ == id_space_exhausted_message()
                &&& final(history)@ == old(history)@
                &&& final(object)@ == old(object)@
            }
            &&& r matches Ok(Some(fingerprint)) ==> {
                &&& fingerprint@ == hash
                &&& next_id_spec(h) == Some(final(object).id)
                &&& final(object)@ == with_id(old(object)@, final(object).id)
                &&& final(history)@.len() == old(history)@.len() + 1
                &&& final(history)@.drop_last() == old(history)@
                &&& recipient is None ==> final(history)@.last()@ == EntryView::Plain(final(object)@)
                &&& recipient is Some ==> sealed_from(
                    EntryView::Plain(final(object)@),
                    final(history)@.last()@,
                    recipient.unwrap()@,
                    serialize,
                )
            }
            &&& r is Err ==> final(history)@ == old(history)@
            &&& recipient is None && !is_duplicate_spec(last, h, hash) && next_id_spec(h) is Some ==> (r matches Ok(Some(_)))
            &&& r is Err ==> !is_duplicate_spec(last, h, hash) && match (next_id_spec(h), recipient) {
                (None, _) => r->Err_0 is Custom,
                (Some(id), Some(to)) => (r->Err_0 is Crypto && (!recipient_parses(to@) || low_order_recipient(to@))) || serialize_fails(
                    serialize,
                    with_id(old(object)@, id),
                    r->Err_0,
                ),
                (Some(_), None) => false,
            }
        }),
{
    let new_hash = content_hash(&object.content);
    if is_duplicate(last_hash, history, &new_hash) {
        return Ok(None);
    }
    let id = match next_history_id(history) {
        Ok(id) => id,
        Err(e) => return Err(e),
    };
    object.id = id;
    let entry = match recipient {
        Some(to) => {
            let mut payload = PlaintextPayload::from_object(object);
            let ghost p0 = payload;
            let serialized = serialize(&payload);
            payload.zeroize();
            let mut bytes = match serialized {
                Ok(b) => b,
                Err(e) => {
                    assert(serialize.ensures((&p0,), Err(e)));
                    assert(serialize_fails(serialize, object@, e));
                    return Err(e);
                },
            };
            let ghost b0 = bytes;
            let sealed = PlaintextPayload::encrypt_to_recipient(bytes.as_slice(), to);
            wipe_bytes(&mut bytes);
            match sealed {
                Ok(ciphertext) => {
                    assert(serialize.ensures((&p0,), Ok(b0)));
                    assert(sealed_object(ciphertext@, object@, to@, serialize));
                    sealed_entry(object, ciphertext)
                },
                Err(e) => return Err(e),
            }
        },
        None => HistoryEntry::Plain(object.clone()),
    };
    history.push(entry);
    proof {
        assert(history@.drop_last() =~= old(history)@);
    }
    Ok(Some(new_hash))
}

/// The oldest date that is kept: `now` minus the retention window, both
/// saturating at the bounds of `u64`.
pub open spec fn retention_cutoff_spec(now: u64, amount: u64, unit: RetentionUnit) -> u64 {
    let window: int = if amount * ms_per_unit_spec(unit) > u64::MAX {
        u64::MAX as int
    } else {
        amount * ms_per_unit_spec(unit)
    };
    if now >= window {
        (now - window) as u64
    } else {
        0
    }
}

/// The oldest date, in milliseconds, that a retention of `amount` units keeps
/// at time `now`.
pub fn retention_cutoff(now: u64, amount: u64, unit: RetentionUnit) -> (r: u64)
    ensures
        r == retention_cutoff_spec(now, amount, unit),
{
    let window = match amount.checked_mul(unit.ms_per_unit()) {
        Some(w) => w,
        None => u64::MAX,
    };
    now.saturating_sub(window)
}

/// Whether an entry has expired. A plain entry expires when its date is before
/// `cutoff`; an encrypted one when its listed date is before `cutoff` and its
/// payload could be read (`payload_date`) and carries a date before `cutoff`.
pub open spec fn entry_expired(e: EntryView, cutoff: u64, payload_date: Option<u64>) -> bool {
    entry_date(e) < cutoff && match e {
        EntryView::Plain(_) => true,
        EntryView::Encrypted(_) => payload_date matches Some(d) && d < cutoff,
    }
}

/// The entries that have not expired, in order.
pub open spec fn unexpired(h: Seq<EntryView>, cutoff: u64, dates: Seq<Option<u64>>) -> Seq<EntryView>
    decreases h.len(),
{
    if h.len() == 0 {
        Seq::empty()
    } else {
        let rest = unexpired(h.drop_last(), cutoff, dates);
        if entry_expired(h.last(), cutoff, dates[h.len() - 1]) {
            rest
        } else {
            rest.push(h.last())
        }
    }
}

/// The ids of the entries that have expired, in order.
pub open spec fn expired_ids(h: Seq<EntryView>, cutoff: u64, dates: Seq<Option<u64>>) -> Seq<u32>
    decreases h.len(),
{
    if h.len() == 0 {
        Seq::empty()
    } else {
        let rest = expired_ids(h.drop_last(), cutoff, dates);
        if entry_expired(h.last(), cutoff, dates[h.len() - 1]) {
            rest.push(entry_id(h.last()))
        } else {
            rest
        }
    }
}

/// Splits the history into the entries to keep and the ids of the expired
/// ones. `payload_dates[i]` is the date carried by the payload of entry `i`
/// when it is encrypted and could be decrypted, and `None` otherwise.
pub fn prune_expired_entries(history: Vec<HistoryEntry>, cutoff: u64, payload_dates: &Vec<Option<u64>>) -> (r: (
    Vec<HistoryEntry>,
    Vec<u32>,
))
    requires
        payload_dates@.len() == history@.len(),
    ensures
        entries_view(r.0@) == unexpired(entries_view(history@), cutoff, payload_dates@),
        r.1@ == expired_ids(entries_view(history@), cutoff, payload_dates@),
{
    let ghost h = entries_view(history@);
    let mut kept: Vec<HistoryEntry> = Vec::new();
    let mut pruned: Vec<u32> = Vec::new();
    let mut i: usize = 0;
    let n = history.len();
    for entry in it: history
        invariant
            i == it.index(),
            n == history@.len(),
            it.seq() == history@,
            h == entries_view(history@),
            payload_dates@.len() == history@.len(),
            entries_view(kept@) == unexpired(h.subrange(0, i as int), cutoff, payload_dates@),
            pruned@ == expired_ids(h.subrange(0, i as int), cutoff, payload_dates@),
    {
        proof {
            assert(h.subrange(0, i as int + 1).drop_last() =~= h.subrange(0, i as int));
            assert(h.subrange(0, i as int + 1).last() == entry@);
        }
        let date = entry.date();
        let expired = date < cutoff && match &entry {
            HistoryEntry::Plain(_) => true,
            HistoryEntry::Encrypted(_) => match payload_dates[i] {
                Some(d) => d < cutoff,
                None => false,
            },
        };
        if expired {
            pruned.push(entry.id());
        } else {
            let ghost before = kept@;
            kept.push(entry);
            proof {
                assert(entries_view(kept@) =~= entries_view(before).push(kept@[kept@.len() - 1]@));
            }
        }
        i = i + 1;
    }
    proof {
        assert(h.subrange(0, h.len() as int) =~= h);
    }
    (kept, pruned)
}


/// Pruning keeps every entry dated at or after the cutoff, in order, and
/// splits the history: each entry is either kept or has its id listed as
/// expired.
pub proof fn lemma_prune_keeps_recent(h: Seq<EntryView>, cutoff: u64, dates: Seq<Option<u64>>)
    requires
        dates.len() == h.len(),
    ensures
        unexpired(h, cutoff, dates).len() + expired_ids(h, cutoff, dates).len() == h.len(),
        forall|i: int|
            0 <= i < h.len() && entry_date(h[i]) >= cutoff ==> unexpired(h, cutoff, dates).contains(
                #[trigger] h[i],
            ),
{
    lemma_unexpired_prefix(h, cutoff, dates);
}

/// The facts of `lemma_prune_keeps_recent`, with `dates` possibly longer
/// than the entries.
proof fn lemma_unexpired_prefix(h: Seq<EntryView>, cutoff: u64, dates: Seq<Option<u64>>)
    requires
        dates.len() >= h.len(),
    ensures
        unexpired(h, cutoff, dates).len() + expired_ids(h, cutoff, dates).len() == h.len(),
        forall|i: int|
            0 <= i < h.len() && entry_date(h[i]) >= cutoff ==> unexpired(h, cutoff, dates).contains(
                #[trigger] h[i],
            ),
    decreases h.len(),
{
    if h.len() > 0 {
        let init = h.drop_last();
        lemma_unexpired_prefix(init, cutoff, dates);
        let kept = unexpired(h, cutoff, dates);
        let rest = unexpired(init, cutoff, dates);
        assert forall|i: int| 0 <= i < h.len() && entry_date(h[i]) >= cutoff implies kept.contains(#[trigger] h[i]) by {
            if i < h.len() - 1 {
                assert(init[i] == h[i]);
                assert(rest.contains(init[i]));
                let k = choose|k: int| 0 <= k < rest.len() && rest[k] == init[i];
                if !entry_expired(h.last(), cutoff, dates[h.len() - 1]) {
                    assert(kept[k] == rest[k]);
                }
            } else {
                assert(!entry_expired(h.last(), cutoff, dates[h.len() - 1]));
                assert(kept[kept.len() - 1] == h.last());
            }
        }
    }
}

/// Whether `date` is what pruning reads from the payload of entry `e`: only an
/// encrypted entry listed before `cutoff`, and only with an identity at hand,
/// is decrypted; what it gives is the date of the payload that `parse` reads
/// from the record's plaintext, and nothing exactly when reading the record
/// fails (it does not decrypt, or `parse` fails on its plaintext).
pub open spec fn payload_date_read<F: Fn(&[u8]) -> Result<PlaintextPayload, AppError>>(
    e: EntryView,
    cutoff: u64,
    identity: Option<Seq<char>>,
    date: Option<u64>,
    parse: F,
) -> bool {
    match (e, identity) {
        (EntryView::Encrypted(r), Some(id)) => if r.date < cutoff {
            match date {
                Some(d) => exists|p: PlaintextPayload|
                    #[trigger] read_outcome(r, id, parse, Ok(p)) && d == payload_object(p, r).date,
                None => exists|err: AppError| #[trigger] read_outcome(r, id, parse, Err(err)),
            }
        } else {
            date is None
        },
        _ => date is None,
    }
}

/// Drops the expired entries: a plain entry dated before `cutoff`, and an
/// encrypted one listed before `cutoff` whose payload, decrypted with
/// `identity` and read back with `parse`, is dated before `cutoff` too. An
/// encrypted entry that cannot be decrypted is kept. Returns the entries kept
/// and the ids dropped, both in order.
pub fn prune_history<F>(
    history: Vec<HistoryEntry>,
    cutoff: u64,
    identity: Option<&str>,
    parse: F,
) -> (r: (Vec<HistoryEntry>, Vec<u32>)) where F: Fn(&[u8]) -> Result<PlaintextPayload, AppError>
    requires
        forall|b: &[u8]| #[trigger] parse.requires((b,)),
    ensures
        exists|dates: Seq<Option<u64>>|
            {
                &&& dates.len() == history.len()
                &&& forall|i: int|
                    0 <= i < history.len() ==> payload_date_read(
                        #[trigger] history@[i]@,
                        cutoff,
                        identity_text(identity),
                        dates[i],
                        parse,
                    )
                &&& entries_view(r.0@) == unexpired(entries_view(history@), cutoff, dates)
                &&& r.1@ == expired_ids(entries_view(history@), cutoff, dates)
            },
{
    let mut dates: Vec<Option<u64>> = Vec::new();
    let mut i: usize = 0;
    while i < history.len()
        invariant
            i <= history@.len(),
            dates@.len() == i,
            forall|j: int|
                0 <= j < i ==> payload_date_read(
                    #[trigger] history@[j]@,
                    cutoff,
                    identity_text(identity),
                    dates@[j],
                    parse,
                ),
            forall|b: &[u8]| #[trigger] parse.requires((b,)),
        decreases history@.len() - i,
    {
        let date = match (&history[i], identity) {
            (HistoryEntry::Encrypted(record), Some(id)) => {
                let ghost idt = identity_text(identity);
                assert(idt matches Some(t) && t == id@);
                assert(history@[i as int]@ == EntryView::Encrypted(record@));
                if record.date < cutoff {
                    match record.decrypt_with_identity(id) {
                        Ok(mut bytes) => {
                            let parsed = parse(bytes.as_slice());
                            wipe_bytes(&mut bytes);
                            match parsed {
                                Ok(mut payload) => {
                                    assert(read_outcome(record@, id@, parse, Ok(payload)));
                                    let date = payload.authoritative_date(record);
                                    let ghost p0 = payload;
                                    payload.zeroize();
                                    assert(date == payload_object(p0, record@).date);
                                    assert(payload_date_read(history@[i as int]@, cutoff, idt, Some(date), parse));
                                    Some(date)
                                },
                                Err(err) => {
                                    assert(read_outcome(record@, id@, parse, Err(err)));
                                    assert(payload_date_read(history@[i as int]@, cutoff, idt, None, parse));
                                    None
                                },
                            }
                        },
                        Err(err) => {
                            assert(read_outcome(record@, id@, parse, Err(err)));
                            assert(payload_date_read(history@[i as int]@, cutoff, idt, None, parse));
                            None
                        },
                    }
                } else {
                    None
                }
            },
            _ => None,
        };
        dates.push(date);
        i = i + 1;
    }
    prune_expired_entries(history, cutoff, &dates)
}

/// The character of a decimal digit.
pub open spec fn digit_char(d: nat) -> char {
    ((48 + d) as u32) as char
}

/// The decimal numeral of `n`, without leading zeros.
pub open spec fn decimal(n: nat) -> Seq<char>
    decreases n,
{
    if n < 10 {
        seq![digit_char(n)]
    } else {
        decimal(n / 10).push(digit_char(n % 10))
    }
}

/// The numeral of one decimal digit.
fn digit_str(d: u64) -> (r: &'static str)
    requires
        d < 10,
    ensures
        r@ == seq![digit_char(d as nat)],
{
    proof {
        reveal_strlit("0");
        reveal_strlit("1");
        reveal_strlit("2");
        reveal_strlit("3");
        reveal_strlit("4");
        reveal_strlit("5");
        reveal_strlit("6");
        reveal_strlit("7");
        reveal_strlit("8");
        reveal_strlit("9");
    }
    if d == 0 {
        "0"
    } else if d == 1 {
        "1"
    } else if d == 2 {
        "2"
    } else if d == 3 {
        "3"
    } else if d == 4 {
        "4"
    } else if d == 5 {
        "5"
    } else if d == 6 {
        "6"
    } else if d == 7 {
        "7"
    } else if d == 8 {
        "8"
    } else {
        "9"
    }
}

/// The decimal numeral of `n`, as `Display` writes an unsigned integer.
pub fn decimal_string(n: u64) -> (r: String)
    ensures
        r@ == decimal(n as nat),
    decreases n,
{
    if n < 10 {
        digit_str(n).to_owned()
    } else {
        let mut s = decimal_string(n / 10);
        s.append(digit_str(n % 10));
        s
    }
}

/// The message given when no entry has id `id`.
pub open spec fn missing_id_message(id: u32) -> Seq<char> {
    "No item with id: "@ + decimal(id as nat) + " in history"@
}

/// The error given when no entry has id `id`.
pub fn missing_id_error(id: u32) -> (e: AppError)
    ensures
        e matches AppError::Custom(m) && m@ == missing_id_message(id),
{
    let mut m = "No item with id: ".to_owned();
    m.append(decimal_string(id as u64).as_str());
    m.append(" in history");
    AppError::Custom(m)
}

/// Some entry has id `id`.
pub open spec fn has_id(h: Seq<EntryView>, id: u32) -> bool {
    exists|i: int| 0 <= i < h.len() && entry_id(#[trigger] h[i]) == id
}

/// The entries whose id is not `id`, in order.
pub open spec fn without_entry(h: Seq<EntryView>, id: u32) -> Seq<EntryView>
    decreases h.len(),
{
    if h.len() == 0 {
        Seq::empty()
    } else if entry_id(h.last()) == id {
        without_entry(h.drop_last(), id)
    } else {
        without_entry(h.drop_last(), id).push(h.last())
    }
}

/// Removing an id keeps every entry exactly when no entry has that id.
proof fn lemma_without_entry_len(h: Seq<EntryView>, id: u32)
    ensures
        without_entry(h, id).len() <= h.len(),
        without_entry(h, id).len() == h.len() <==> !has_id(h, id),
    decreases h.len(),
{
    if h.len() > 0 {
        lemma_without_entry_len(h.drop_last(), id);
        if has_id(h.drop_last(), id) {
            let k = choose|k: int| 0 <= k < h.drop_last().len() && entry_id(#[trigger] h.drop_last()[k]) == id;
            assert(h[k] == h.drop_last()[k]);
        }
        if has_id(h, id) && entry_id(h.last()) != id {
            let k = choose|k: int| 0 <= k < h.len() && entry_id(#[trigger] h[k]) == id;
            assert(k < h.len() - 1);
            assert(h.drop_last()[k] == h[k]);
        }
        if entry_id(h.last()) == id {
            assert(entry_id(h[h.len() - 1]) == id);
        }
    }
}

/// The history without the entry of `id`; an error when there is none.
pub fn remove_entry(history: Vec<HistoryEntry>, id: u32) -> (r: Result<Vec<HistoryEntry>, AppError>)
    ensures
        has_id(entries_view(history@), id) ==> (r matches Ok(kept) && entries_view(kept@)
            == without_entry(entries_view(history@), id)),
        !has_id(entries_view(history@), id) ==> (r matches Err(AppError::Custom(m)) && m@
            == missing_id_message(id)),
{
    let ghost h = entries_view(history@);
    let before = history.len();
    let mut kept: Vec<HistoryEntry> = Vec::new();
    let mut i: usize = 0;
    for entry in it: history
        invariant
            i == it.index(),
            before == history@.len(),
            it.seq() == history@,
            h == entries_view(history@),
            entries_view(kept@) == without_entry(h.subrange(0, i as int), id),
    {
        proof {
            assert(h.subrange(0, i as int + 1).drop_last() =~= h.subrange(0, i as int));
            assert(h.subrange(0, i as int + 1).last() == entry@);
        }
        if entry.id() != id {
            let ghost prev = kept@;
            kept.push(entry);
            proof {
                assert(entries_view(kept@) =~= entries_view(prev).push(kept@[kept@.len() - 1]@));
            }
        }
        i = i + 1;
    }
    proof {
        assert(h.subrange(0, h.len() as int) =~= h);
        lemma_without_entry_len(h, id);
    }
    if kept.len() == before {
        return Err(missing_id_error(id));
    }
    Ok(kept)
}

/// Position of the first entry with id `id`, or `-1`.
pub open spec fn first_with_id(h: Seq<EntryView>, id: u32) -> int
    decreases h.len(),
{
    if h.len() == 0 {
        -1
    } else if entry_id(h[0]) == id {
        0
    } else if first_with_id(h.drop_first(), id) < 0 {
        -1
    } else {
        first_with_id(h.drop_first(), id) + 1
    }
}

/// `first_with_id` names the first entry with that id, or there is none.
pub proof fn lemma_first_with_id(h: Seq<EntryView>, id: u32)
    ensures
        -1 <= first_with_id(h, id) < h.len(),
        first_with_id(h, id) >= 0 ==> entry_id(h[first_with_id(h, id)]) == id
            && forall|j: int| 0 <= j < first_with_id(h, id) ==> entry_id(#[trigger] h[j]) != id,
        first_with_id(h, id) < 0 ==> !has_id(h, id),
    decreases h.len(),
{
    if h.len() > 0 && entry_id(h[0]) != id {
        lemma_first_with_id(h.drop_first(), id);
        let f = first_with_id(h.drop_first(), id);
        assert forall|j: int| 1 <= j < h.len() implies h[j] == #[trigger] h.drop_first()[j - 1] by {}
        if f < 0 {
            if has_id(h, id) {
                let k = choose|k: int| 0 <= k < h.len() && entry_id(#[trigger] h[k]) == id;
                assert(h.drop_first()[k - 1] == h[k]);
            }
        } else {
            assert forall|j: int| 0 <= j < f + 1 implies entry_id(#[trigger] h[j]) != id by {
                if j > 0 {
                    assert(h.drop_first()[j - 1] == h[j]);
                }
            }
        }
    }
}

/// The first entry with id `id`; an error when there is none.
pub fn find_entry(history: &Vec<HistoryEntry>, id: u32) -> (r: Result<&HistoryEntry, AppError>)
    ensures
        first_with_id(entries_view(history@), id) >= 0 ==> (r matches Ok(e) && e@
            == entries_view(history@)[first_with_id(entries_view(history@), id)]),
        first_with_id(entries_view(history@), id) < 0 ==> (r matches Err(AppError::Custom(m)) && m@
            == missing_id_message(id)),
{
    let ghost h = entries_view(history@);
    proof {
        lemma_first_with_id(h, id);
    }
    let mut i: usize = 0;
    while i < history.len()
        invariant
            i <= history@.len(),
            h == entries_view(history@),
            forall|j: int| 0 <= j < i ==> entry_id(#[trigger] h[j]) != id,
        decreases history@.len() - i,
    {
        if history[i].id() == id {
            proof {
                lemma_first_with_id(h, id);
                let f = first_with_id(h, id);
                assert(h[i as int] == history@[i as int]@);
                assert(entry_id(h[i as int]) == id);
                assert(has_id(h, id));
                if f < i as int {
                    assert(entry_id(h[f]) != id);
                }
                if f > i as int {
                    assert(entry_id(h[i as int]) != id);
                }
            }
            return Ok(&history[i]);
        }
        i = i + 1;
    }
    proof {
        let f = first_with_id(h, id);
        if f >= 0 {
            assert(entry_id(h[f]) == id);
        }
    }
    Err(missing_id_error(id))
}


/// The history after one repair: the encrypted entry at `idx`, if there is
/// one, listed under the given id and date.
pub open spec fn repaired_once(h: Seq<EntryView>, repair: (usize, u32, u64)) -> Seq<EntryView> {
    let (idx, id, date) = repair;
    if idx < h.len() && h[idx as int] is Encrypted {
        h.update(
            idx as int,
            EntryView::Encrypted(RecordView { id, date, ciphertext: h[idx as int]->Encrypted_0.ciphertext }),
        )
    } else {
        h
    }
}

/// The history after the repairs, applied in order.
pub open spec fn repaired(h: Seq<EntryView>, repairs: Seq<(usize, u32, u64)>) -> Seq<EntryView>
    decreases repairs.len(),
{
    if repairs.len() == 0 {
        h
    } else {
        repaired_once(repaired(h, repairs.drop_last()), repairs.last())
    }
}

/// Lists the encrypted entries named by `repairs` under their payloads' ids
/// and dates.
pub fn apply_repairs(history: &mut Vec<HistoryEntry>, repairs: &Vec<(usize, u32, u64)>)
    ensures
        entries_view(final(history)@) == repaired(entries_view(old(history)@), repairs@),
{
    let ghost h0 = entries_view(history@);
    let mut k: usize = 0;
    while k < repairs.len()
        invariant
            k <= repairs@.len(),
            entries_view(history@) == repaired(h0, repairs@.subrange(0, k as int)),
        decreases repairs@.len() - k,
    {
        proof {
            assert(repairs@.subrange(0, k as int + 1).drop_last() =~= repairs@.subrange(0, k as int));
        }
        let (idx, id, date) = repairs[k];
        if idx < history.len() {
            let ghost before = history@;
            let replacement = match &history[idx] {
                HistoryEntry::Encrypted(record) => Some(
                    HistoryEntry::Encrypted(EncryptedRecord { id, date, ciphertext: record.ciphertext.clone() }),
                ),
                HistoryEntry::Plain(_) => None,
            };
            if let Some(entry) = replacement {
                history.set(idx, entry);
                proof {
                    assert(entries_view(history@) =~= entries_view(before).update(idx as int, history@[idx as int]@));
                }
            }
        }
        k = k + 1;
    }
    proof {
        assert(repairs@.subrange(0, repairs@.len() as int) =~= repairs@);
    }
}

} // verus!
