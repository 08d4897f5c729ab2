//! Moving the whole history into and out of encryption. The payload of an
//! entry is turned into bytes, and bytes back into a payload, by the caller's
//! `serialize` and `parse`; everything around them is done here.
use vstd::prelude::*;

use crate::crypto::{
    entry_date, entry_id, identity_parses, payload_object, payload_of_object, read_outcome, recipient_of,
    low_order_recipient, recipient_parses, record_plaintext, sealed_entry, sealed_to, EntryView, HistoryEntry, PlaintextPayload,
};
use crate::model::{opt_bytes_view, opt_string_view};
use crate::history::entries_view;
use crate::model::{wipe_bytes, AppError, ObjectView};

verus! {

/// Whether `text` holds, sealed to `recipient`, the bytes that `serialize`
/// gives for the payload that stores `o`.
pub open spec fn sealed_object<F: Fn(&PlaintextPayload) -> Result<Vec<u8>, AppError>>(
    text: Seq<char>,
    o: ObjectView,
    recipient: Seq<char>,
    serialize: F,
) -> bool {
    exists|p: &PlaintextPayload, b: Vec<u8>|
        payload_of_object(*p, o) && #[trigger] serialize.ensures((p,), Ok(b)) && sealed_to(text, recipient, b@)
}

/// Whether `serialize` fails with `e` on the payload that stores `o`.
pub open spec fn serialize_fails<F: Fn(&PlaintextPayload) -> Result<Vec<u8>, AppError>>(
    serialize: F,
    o: ObjectView,
    e: AppError,
) -> bool {
    exists|p: &PlaintextPayload| payload_of_object(*p, o) && #[trigger] serialize.ensures((p,), Err(e))
}

/// What enabling encryption makes of one stored entry: an encrypted entry
/// stays as it is; a plain one becomes an encrypted record under the same id
/// and date, sealed to `recipient`, that every identity of that recipient
/// decrypts to the serialized payload of the object.
pub open spec fn sealed_from<F: Fn(&PlaintextPayload) -> Result<Vec<u8>, AppError>>(
    before: EntryView,
    after: EntryView,
    recipient: Seq<char>,
    serialize: F,
) -> bool {
    match before {
        EntryView::Encrypted(_) => after == before,
        EntryView::Plain(o) => after matches EntryView::Encrypted(r) && r.id == o.id && r.date == o.date
            && sealed_object(r.ciphertext, o, recipient, serialize),
    }
}

/// Encrypts every plain entry of `history` to the recipient written as
/// `recipient`, keeping the order and the encrypted entries as they are.
/// `serialize` turns the payload of a plain entry into the bytes that are
/// encrypted; the payload and the bytes are wiped once encrypted.
pub fn encrypt_entries<F>(history: Vec<HistoryEntry>, recipient: &str, serialize: F) -> (r: Result<
    Vec<HistoryEntry>,
    AppError,
>) where F: Fn(&PlaintextPayload) -> Result<Vec<u8>, AppError>
    requires
        forall|p: &PlaintextPayload| #[trigger] serialize.requires((p,)),
    ensures
        r matches Ok(out) ==> {
            &&& out.len() == history.len()
            &&& forall|i: int|
                0 <= i < history.len() ==> sealed_from(history[i]@, #[trigger] out[i]@, recipient@, serialize)
            &&& forall|i: int|
                0 <= i < out.len() ==> (#[trigger] out@[i]) is Encrypted && entry_id(out@[i]@) == entry_id(
                    history@[i]@,
                ) && entry_date(out@[i]@) == entry_date(history@[i]@)
        },
        (forall|i: int| 0 <= i < history.len() ==> (#[trigger] history@[i]) is Encrypted) ==> (r matches Ok(
            out,
        ) && entries_view(out@) == entries_view(history@)),
        r matches Err(e) ==> (e is Crypto && (!recipient_parses(recipient@) || low_order_recipient(recipient@))) || exists|i: int|
            0 <= i < history.len() && match #[trigger] history@[i] {
                HistoryEntry::Plain(o) => serialize_fails(serialize, o@, e),
                _ => false,
            },
{
    let ghost h = history@;
    let mut out: Vec<HistoryEntry> = Vec::new();
    for entry in it: history
        invariant
            it.seq() == h,
            out.len() == it.index(),
            forall|j: int| 0 <= j < it.index() ==> sealed_from(h[j]@, #[trigger] out[j]@, recipient@, serialize),
            forall|j: int|
                0 <= j < it.index() ==> (#[trigger] out@[j]) is Encrypted && entry_id(out@[j]@) == entry_id(h[j]@)
                    && entry_date(out@[j]@) == entry_date(h[j]@),
            forall|p: &PlaintextPayload| #[trigger] serialize.requires((p,)),
    {
        match entry {
            HistoryEntry::Encrypted(record) => {
                out.push(HistoryEntry::Encrypted(record));
            },
            HistoryEntry::Plain(object) => {
                let ghost k = it.index() as int;
                assert(h[k] is Plain);
                let mut payload = PlaintextPayload::from_object(&object);
                let ghost p0 = payload;
                let serialized = serialize(&payload);
                payload.zeroize();
                let mut bytes = match serialized {
                    Ok(b) => b,
                    Err(e) => {
                        assert(serialize.ensures((&p0,), Err(e)));
                        assert(serialize_fails(serialize, object@, e));
                        assert(h[k] matches HistoryEntry::Plain(o) && serialize_fails(serialize, o@, e));
                        return Err(e);
                    },
                };
                let ghost b0 = bytes;
                let sealed = PlaintextPayload::encrypt_to_recipient(bytes.as_slice(), recipient);
                wipe_bytes(&mut bytes);
                match sealed {
                    Ok(ciphertext) => {
                        assert(serialize.ensures((&p0,), Ok(b0)));
                        assert(sealed_object(ciphertext@, object@, recipient@, serialize));
                        out.push(sealed_entry(&object, ciphertext));
                    },
                    Err(e) => return Err(e),
                }
            },
        }
    }
    proof {
        if forall|j: int| 0 <= j < h.len() ==> (#[trigger] h[j]) is Encrypted {
            assert forall|j: int| 0 <= j < h.len() implies out@[j]@ == h[j]@ by {
                assert(sealed_from(h[j]@, out@[j]@, recipient@, serialize));
            }
            assert(entries_view(out@) =~= entries_view(h));
        }
    }
    Ok(out)
}

/// What disabling encryption makes of one stored entry: a plain entry stays as
/// it is; an encrypted one becomes the plain object of the payload that
/// `parse` reads from its plaintext under `identity`.
pub open spec fn opened_from<F: Fn(&[u8]) -> Result<PlaintextPayload, AppError>>(
    before: EntryView,
    after: EntryView,
    identity: Seq<char>,
    parse: F,
) -> bool {
    match before {
        EntryView::Plain(_) => after == before,
        EntryView::Encrypted(record) => after matches EntryView::Plain(o) && exists|p: PlaintextPayload|
            #[trigger] read_outcome(record, identity, parse, Ok(p)) && o == payload_object(p, record),
    }
}

/// Decrypts every encrypted entry of `history` with the identity written as
/// `identity`, keeping the order and the plain entries as they are. `parse`
/// turns decrypted bytes back into a payload; the bytes are wiped once parsed.
pub fn decrypt_entries<F>(history: Vec<HistoryEntry>, identity: &str, parse: F) -> (r: Result<
    Vec<HistoryEntry>,
    AppError,
>) where F: Fn(&[u8]) -> Result<PlaintextPayload, AppError>
    requires
        forall|b: &[u8]| #[trigger] parse.requires((b,)),
    ensures
        r matches Ok(out) ==> {
            &&& out.len() == history.len()
            &&& forall|i: int|
                0 <= i < history.len() ==> opened_from(history[i]@, #[trigger] out[i]@, identity@, parse)
            &&& forall|i: int| 0 <= i < out.len() ==> (#[trigger] out@[i]) is Plain
        },
        (forall|i: int| 0 <= i < history.len() ==> (#[trigger] history@[i]) is Plain) ==> (r matches Ok(out)
            && entries_view(out@) == entries_view(history@)),
        r matches Err(e) ==> exists|i: int|
            0 <= i < history.len() && match #[trigger] history@[i] {
                HistoryEntry::Encrypted(record) => read_outcome(record@, identity@, parse, Err(e)),
                _ => false,
            },
{
    let ghost h = history@;
    let mut out: Vec<HistoryEntry> = Vec::new();
    for entry in it: history
        invariant
            it.seq() == h,
            out.len() == it.index(),
            forall|j: int| 0 <= j < it.index() ==> opened_from(h[j]@, #[trigger] out[j]@, identity@, parse),
            forall|j: int| 0 <= j < it.index() ==> (#[trigger] out@[j]) is Plain,
            forall|b: &[u8]| #[trigger] parse.requires((b,)),
    {
        match entry {
            HistoryEntry::Plain(object) => {
                out.push(HistoryEntry::Plain(object));
            },
            HistoryEntry::Encrypted(record) => {
                let ghost k = it.index() as int;
                assert(h[k] is Encrypted);
                let ghost rv = record@;
                let mut bytes = match record.decrypt_with_identity(identity) {
                    Ok(b) => b,
                    Err(e) => {
                        assert(read_outcome(rv, identity@, parse, Err(e)));
                        return Err(e);
                    },
                };
                let parsed = parse(bytes.as_slice());
                let ghost b0 = bytes@;
                wipe_bytes(&mut bytes);
                match parsed {
                    Ok(payload) => {
                        assert(read_outcome(rv, identity@, parse, Ok(payload)));
                        let object = payload.into_object(&record);
                        assert(object@ == payload_object(payload, rv));
                        out.push(HistoryEntry::Plain(object));
                    },
                    Err(e) => {
                        assert(read_outcome(rv, identity@, parse, Err(e)));
                        return Err(e);
                    },
                }
            },
        }
    }
    proof {
        if forall|j: int| 0 <= j < h.len() ==> (#[trigger] h[j]) is Plain {
            assert forall|j: int| 0 <= j < h.len() implies out@[j]@ == h[j]@ by {
                assert(opened_from(h[j]@, out@[j]@, identity@, parse));
            }
            assert(entries_view(out@) =~= entries_view(h));
        }
    }
    Ok(out)
}

/// `x` holds what `p` holds.
pub open spec fn same_payload(x: PlaintextPayload, p: PlaintextPayload) -> bool {
    &&& x.id == p.id
    &&& x.date == p.date
    &&& x.content@ == p.content@
    &&& x.content_format@ == p.content_format@
    &&& opt_bytes_view(x.thumbnail) == opt_bytes_view(p.thumbnail)
    &&& opt_string_view(x.formatted_content) == opt_string_view(p.formatted_content)
}

/// `parse` reads back what `serialize` wrote: on the bytes of a serialized
/// payload it gives that payload.
pub open spec fn parse_inverts<
    F: Fn(&PlaintextPayload) -> Result<Vec<u8>, AppError>,
    G: Fn(&[u8]) -> Result<PlaintextPayload, AppError>,
>(serialize: F, parse: G) -> bool {
    forall|p: &PlaintextPayload, b: Vec<u8>, b2: &[u8], q: Result<PlaintextPayload, AppError>|
        #![trigger serialize.ensures((p,), Ok(b)), parse.ensures((b2,), q)]
        serialize.ensures((p,), Ok(b)) && b2@ == b@ && parse.ensures((b2,), q) ==> (q is Ok && same_payload(
            q->Ok_0,
            *p,
        ))
}

/// Enabling and then disabling encryption gives each plain entry back: what
/// `encrypt_entries` seals to an identity's recipient, `decrypt_entries`
/// opens with that identity, when `parse` reads back what `serialize` wrote.
pub proof fn lemma_encrypt_then_decrypt_restores<
    F: Fn(&PlaintextPayload) -> Result<Vec<u8>, AppError>,
    G: Fn(&[u8]) -> Result<PlaintextPayload, AppError>,
>(before: EntryView, sealed: EntryView, opened: EntryView, identity: Seq<char>, serialize: F, parse: G)
    requires
        before is Plain,
        identity_parses(identity),
        parse_inverts(serialize, parse),
        sealed_from(before, sealed, recipient_of(identity), serialize),
        opened_from(sealed, opened, identity, parse),
    ensures
        opened == before,
{
    let o = before->Plain_0;
    let r = sealed->Encrypted_0;
    let (p, b) = choose|p: &PlaintextPayload, b: Vec<u8>|
        payload_of_object(*p, o) && #[trigger] serialize.ensures((p,), Ok(b)) && sealed_to(
            r.ciphertext,
            recipient_of(identity),
            b@,
        );
    assert(record_plaintext(r.ciphertext, identity) == Some(b@)) by {
        assert(identity_parses(identity) && recipient_of(identity) == recipient_of(identity));
    }
    let q = choose|q: PlaintextPayload| #[trigger] read_outcome(r, identity, parse, Ok(q)) && opened->Plain_0
        == payload_object(q, r);
    let b2 = choose|b2: &[u8]| b2@ == b@ && #[trigger] parse.ensures((b2,), Ok::<PlaintextPayload, AppError>(q));
    assert(same_payload(q, *p));
    assert(opened->Plain_0 == o);
}

} // verus!
