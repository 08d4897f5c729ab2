//! Reading one stored entry back: its full object, through the full-content
//! cache, and what copying it puts on the clipboard.
use vstd::prelude::*;

use crate::cache::{object_inserted, DecryptedCache};
use crate::clipboard::{clipboard_write, clipboard_write_spec, ClipboardWrite};
use crate::crypto::{payload_object, read_outcome, EntryView, HistoryEntry, PlaintextPayload};
use crate::history::{entries_view, find_entry, first_with_id, missing_id_message};
use crate::model::{wipe_bytes, AppError, CopiedObject, ObjectView};
use crate::recency::{lookup, touched};

verus! {

/// The text of an optional identity.
pub open spec fn identity_text(identity: Option<&str>) -> Option<Seq<char>> {
    match identity {
        Some(t) => Some(t@),
        None => None,
    }
}

/// Whether `x` is the object that entry `e` holds: a plain entry's own
/// object, or for an encrypted one the object of the payload that `parse`
/// reads from its plaintext under `identity`.
pub open spec fn object_read<F: Fn(&[u8]) -> Result<PlaintextPayload, AppError>>(
    e: EntryView,
    x: ObjectView,
    identity: Option<Seq<char>>,
    parse: F,
) -> bool {
    match e {
        EntryView::Plain(o) => x == o,
        EntryView::Encrypted(r) => identity matches Some(id) && exists|p: PlaintextPayload|
            #[trigger] read_outcome(r, id, parse, Ok(p)) && x == payload_object(p, r),
    }
}

/// Whether `err` is what reading entry `e` fails with: `Locked` for an
/// encrypted entry without an identity, else the error of reading its record.
pub open spec fn read_error<F: Fn(&[u8]) -> Result<PlaintextPayload, AppError>>(
    e: EntryView,
    identity: Option<Seq<char>>,
    parse: F,
    err: AppError,
) -> bool {
    e matches EntryView::Encrypted(r) && match identity {
        None => err is Locked,
        Some(id) => read_outcome(r, id, parse, Err(err)),
    }
}

/// The full object an entry holds: a copy of a plain entry's object, or an
/// encrypted entry's payload, decrypted with `identity` and read back with
/// `parse`, under the record's id and date where the payload carries none.
pub fn entry_object<F>(entry: &HistoryEntry, identity: Option<&str>, parse: F) -> (r: Result<
    CopiedObject,
    AppError,
>) where F: Fn(&[u8]) -> Result<PlaintextPayload, AppError>
    requires
        forall|b: &[u8]| #[trigger] parse.requires((b,)),
    ensures
        r matches Ok(x) ==> object_read(entry@, x@, identity_text(identity), parse),
        entry is Plain ==> r is Ok,
        entry is Encrypted && identity is None ==> r == Err::<CopiedObject, AppError>(AppError::Locked),
        r matches Err(e) ==> read_error(entry@, identity_text(identity), parse, e),
{
    match entry {
        HistoryEntry::Plain(o) => {
            let x = o.clone();
            assert(object_read(entry@, x@, identity_text(identity), parse));
            Ok(x)
        },
        HistoryEntry::Encrypted(record) => {
            let identity = match identity {
                Some(x) => x,
                None => return Err(AppError::Locked),
            };
            let mut bytes = match record.decrypt_with_identity(identity) {
                Ok(b) => b,
                Err(e) => {
                    assert(read_outcome(record@, identity@, parse, Err(e)));
                    return Err(e);
                },
            };
            let parsed = parse(bytes.as_slice());
            wipe_bytes(&mut bytes);
            match parsed {
                Ok(payload) => {
                    assert(read_outcome(record@, identity@, parse, Ok(payload)));
                    let ghost p0 = payload;
                    let object = payload.into_object(record);
                    assert(object@ == payload_object(p0, record@));
                    let ghost idt: Option<Seq<char>> = Some(identity@);
                    assert(idt matches Some(id) && id == identity@);
                    assert(object_read(entry@, object@, idt, parse));
                    Ok(object)
                },
                Err(e) => {
                    assert(read_outcome(record@, identity@, parse, Err(e)));
                    Err(e)
                },
            }
        },
    }
}

/// The full-content cache after an object read from the history is cached
/// under `id`.
pub open spec fn object_cached_after(s: Seq<(u32, ObjectView)>, id: u32, v: ObjectView) -> Seq<(u32, ObjectView)> {
    object_inserted(s, id, v)
}

/// The full object of the entry `id`: the cached copy when there is one,
/// which becomes the most recently used; otherwise the first entry with
/// that id in `history` is read and its object cached. The history is only
/// needed on a miss, so an error in reading it only counts then.
pub fn full_content<F>(
    history: Result<&Vec<HistoryEntry>, AppError>,
    id: u32,
    identity: Option<&str>,
    cache: &mut DecryptedCache,
    parse: F,
) -> (r: Result<CopiedObject, AppError>) where F: Fn(&[u8]) -> Result<PlaintextPayload, AppError>
    requires
        old(cache).wf(),
        forall|b: &[u8]| #[trigger] parse.requires((b,)),
    ensures
        final(cache).wf(),
        lookup(old(cache).entries(), id) matches Some(v) ==> {
            &&& r matches Ok(x) && x@ == v
            &&& final(cache).entries() == touched(old(cache).entries(), id)
        },
        lookup(old(cache).entries(), id) is None && history is Err ==> {
            &&& r == Err::<CopiedObject, AppError>(history->Err_0)
            &&& final(cache).entries() == old(cache).entries()
        },
        lookup(old(cache).entries(), id) is None && history is Ok ==> ({
            let h = entries_view(history->Ok_0@);
            let k = first_with_id(h, id);
            &&& k < 0 ==> (r matches Err(AppError::Custom(m)) && m@ == missing_id_message(id))
            &&& k >= 0 && h[k] is Plain ==> r is Ok
            &&& k >= 0 && h[k] is Encrypted && identity is None ==> r == Err::<CopiedObject, AppError>(
                AppError::Locked,
            )
            &&& r matches Ok(x) ==> k >= 0 && object_read(h[k], x@, identity_text(identity), parse)
                && final(cache).entries() == object_cached_after(old(cache).entries(), id, x@)
            &&& r matches Err(e) ==> k < 0 || read_error(h[k], identity_text(identity), parse, e)
            &&& r is Err ==> final(cache).entries() == old(cache).entries()
        }),
{
    match cache.get(id) {
        Some(object) => return Ok(object),
        None => {},
    }
    let history = match history {
        Ok(h) => h,
        Err(e) => return Err(e),
    };
    let entry = match find_entry(history, id) {
        Ok(e) => e,
        Err(e) => return Err(e),
    };
    let object = match entry_object(entry, identity, parse) {
        Ok(x) => x,
        Err(e) => return Err(e),
    };
    cache.insert(id, object.clone());
    Ok(object)
}

/// What copying the entry `id` back puts on the clipboard: its formatted
/// content when `formatted` is asked for and it has HTML or RTF, its payload
/// otherwise. The decrypted copy of an encrypted entry is wiped afterwards.
pub fn entry_clipboard_write<F>(
    history: &Vec<HistoryEntry>,
    id: u32,
    identity: Option<&str>,
    formatted: bool,
    parse: F,
) -> (r: Result<ClipboardWrite, AppError>) where F: Fn(&[u8]) -> Result<PlaintextPayload, AppError>
    requires
        forall|b: &[u8]| #[trigger] parse.requires((b,)),
    ensures
        ({
            let h = entries_view(history@);
            let k = first_with_id(h, id);
            &&& k < 0 ==> (r matches Err(AppError::Custom(m)) && m@ == missing_id_message(id))
            &&& k >= 0 && h[k] is Plain ==> r is Ok
            &&& k >= 0 && h[k] is Encrypted && identity is None ==> r == Err::<ClipboardWrite, AppError>(
                AppError::Locked,
            )
            &&& r matches Ok(w) ==> k >= 0 && exists|x: ObjectView|
                #[trigger] object_read(h[k], x, identity_text(identity), parse) && w@ == clipboard_write_spec(
                    x.content,
                    x.content_format,
                    x.formatted_content,
                    formatted,
                )
        }),
        r matches Err(e) ==> (first_with_id(entries_view(history@), id) < 0 && e is Custom) || (first_with_id(
            entries_view(history@),
            id,
        ) >= 0 && read_error(
            entries_view(history@)[first_with_id(entries_view(history@), id)],
            identity_text(identity),
            parse,
            e,
        )),
{
    let entry = match find_entry(history, id) {
        Ok(e) => e,
        Err(e) => return Err(e),
    };
    let mut object = match entry_object(entry, identity, parse) {
        Ok(x) => x,
        Err(e) => return Err(e),
    };
    let ghost x = object@;
    let write = clipboard_write(&object.content, &object.content_format, &object.formatted_content, formatted);
    object.zeroize();
    assert(object_read(entries_view(history@)[first_with_id(entries_view(history@), id)], x, identity_text(identity), parse));
    Ok(write)
}

} // verus!
