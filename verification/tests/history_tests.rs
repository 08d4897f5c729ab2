use clipboard_history::crypto::{content_hash, EncryptedRecord, HistoryEntry};
use clipboard_history::history::{
    apply_repairs, decimal_string, find_entry, is_duplicate, next_history_id, prune_expired_entries,
    remove_entry, retention_cutoff,
};
use clipboard_history::{AppError, CopiedObject, ObjectContent, ObjectFormat, RetentionUnit};

fn plain(id: u32, date: u64, s: &str) -> HistoryEntry {
    HistoryEntry::Plain(CopiedObject {
        id,
        content: ObjectContent::Text(s.to_string()),
        content_format: ObjectFormat::Text,
        date,
        thumbnail: None,
        formatted_content: None,
    })
}

fn sealed(id: u32, date: u64) -> HistoryEntry {
    HistoryEntry::Encrypted(EncryptedRecord { id, date, ciphertext: format!("ct{id}") })
}

fn ids(h: &[HistoryEntry]) -> Vec<u32> {
    h.iter().map(|e| e.id()).collect()
}

#[test]
fn next_id_of_empty_history_is_one() {
    assert_eq!(next_history_id(&vec![]), Ok(1));
}

#[test]
fn next_id_is_one_past_the_largest() {
    let h = vec![plain(3, 0, "a"), sealed(9, 0), plain(4, 0, "b")];
    assert_eq!(next_history_id(&h), Ok(10));
}

#[test]
fn next_id_exhausted() {
    let h = vec![plain(u32::MAX, 0, "a")];
    assert_eq!(
        next_history_id(&h),
        Err(AppError::Custom("History ID space exhausted. Clear some entries.".to_string()))
    );
}

#[test]
fn duplicate_by_remembered_hash() {
    let h = vec![];
    let hash = content_hash(&ObjectContent::Text("a".to_string()));
    assert!(is_duplicate(&Some(hash.clone()), &h, &hash));
    assert!(!is_duplicate(&Some("other".to_string()), &h, &hash));
    assert!(!is_duplicate(&None, &h, &hash));
}

#[test]
fn duplicate_of_last_plain_entry() {
    let hash = content_hash(&ObjectContent::Text("a".to_string()));
    assert!(is_duplicate(&None, &vec![plain(1, 0, "z"), plain(2, 0, "a")], &hash));
    assert!(!is_duplicate(&None, &vec![plain(2, 0, "a"), plain(3, 0, "z")], &hash));
    assert!(!is_duplicate(&None, &vec![plain(2, 0, "a"), sealed(3, 0)], &hash));
}

#[test]
fn cutoff_subtracts_window() {
    assert_eq!(retention_cutoff(1_000_000, 2, RetentionUnit::Minutes), 880_000);
    assert_eq!(retention_cutoff(100_000_000, 1, RetentionUnit::Days), 13_600_000);
    assert_eq!(retention_cutoff(10_000_000, 1, RetentionUnit::Hours), 6_400_000);
}

#[test]
fn cutoff_saturates() {
    assert_eq!(retention_cutoff(5, 1, RetentionUnit::Hours), 0);
    assert_eq!(retention_cutoff(u64::MAX, u64::MAX, RetentionUnit::Days), 0);
}

#[test]
fn prune_removes_old_plain_and_decrypted_old_entries() {
    let h = vec![plain(1, 10, "old"), plain(2, 500, "new"), sealed(3, 10), sealed(4, 10), sealed(5, 10), sealed(6, 700)];
    let dates = vec![None, None, Some(20), None, Some(900), None];
    let (kept, pruned) = prune_expired_entries(h, 100, &dates);
    assert_eq!(ids(&kept), vec![2, 4, 5, 6]);
    assert_eq!(pruned, vec![1, 3]);
}

#[test]
fn prune_keeps_everything_recent() {
    let h = vec![plain(1, 100, "a"), sealed(2, 200)];
    let (kept, pruned) = prune_expired_entries(h, 100, &vec![None, Some(0)]);
    assert_eq!(ids(&kept), vec![1, 2]);
    assert!(pruned.is_empty());
}

#[test]
fn remove_entry_drops_matching_id() {
    let h = vec![plain(1, 0, "a"), sealed(2, 0), plain(3, 0, "c")];
    let kept = remove_entry(h, 2).unwrap();
    assert_eq!(ids(&kept), vec![1, 3]);
}

#[test]
fn remove_entry_missing_id_is_error() {
    let h = vec![plain(1, 0, "a")];
    assert_eq!(remove_entry(h, 42).err(), Some(AppError::Custom("No item with id: 42 in history".to_string())));
}

#[test]
fn find_entry_first_match() {
    let h = vec![plain(1, 0, "a"), plain(2, 5, "b"), plain(2, 6, "c")];
    assert_eq!(find_entry(&h, 2).unwrap().date(), 5);
    assert_eq!(find_entry(&h, 0).err(), Some(AppError::Custom("No item with id: 0 in history".to_string())));
}

#[test]
fn decimal_numerals() {
    assert_eq!(decimal_string(0), "0");
    assert_eq!(decimal_string(7), "7");
    assert_eq!(decimal_string(10), "10");
    assert_eq!(decimal_string(4294967295), "4294967295");
    assert_eq!(decimal_string(u64::MAX), "18446744073709551615");
}

#[test]
fn repairs_touch_only_encrypted_entries() {
    let mut h = vec![plain(1, 1, "a"), sealed(2, 2), sealed(3, 3)];
    apply_repairs(&mut h, &vec![(0, 100, 100), (1, 20, 200), (9, 5, 5)]);
    assert_eq!(ids(&h), vec![1, 20, 3]);
    assert_eq!(h[1].date(), 200);
    match &h[1] {
        HistoryEntry::Encrypted(r) => assert_eq!(r.ciphertext, "ct2"),
        HistoryEntry::Plain(_) => panic!("variant changed"),
    }
}
