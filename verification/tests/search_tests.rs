use clipboard_history::crypto::{EncryptedRecord, HistoryEntry};
use clipboard_history::search::{all_ids, object_contains, search_terms};
use clipboard_history::ObjectContent;

#[test]
fn search_terms_are_lowercase_words() {
    assert_eq!(search_terms("  Hello   WORLD\tx "), vec!["hello".to_string(), "world".to_string(), "x".to_string()]);
    assert!(search_terms("   ").is_empty());
}

#[test]
fn text_matches_all_terms_case_insensitively() {
    let c = ObjectContent::Text("The Quick Brown Fox".to_string());
    assert!(object_contains(&c, &search_terms("quick fox")));
    assert!(!object_contains(&c, &search_terms("quick dog")));
    assert!(object_contains(&c, &vec![]));
}

#[test]
fn html_and_rtf_match_on_text() {
    assert!(object_contains(&ObjectContent::Html("<b>Bold</b>".to_string()), &search_terms("bold")));
    assert!(object_contains(&ObjectContent::Rtf("{\\rtf1 Hi}".to_string()), &search_terms("hi")));
}

#[test]
fn files_match_on_joined_paths() {
    let c = ObjectContent::Files(vec!["/home/A.txt".to_string(), "/tmp/b".to_string()]);
    assert!(object_contains(&c, &search_terms("a.txt /tmp")));
    assert!(object_contains(&c, &vec!["txt\n/tmp".to_string()]));
    assert!(!object_contains(&c, &search_terms("c")));
}

#[test]
fn images_and_other_never_match() {
    assert!(!object_contains(&ObjectContent::Image(vec![b'a']), &vec![]));
    assert!(!object_contains(&ObjectContent::Other("a".to_string(), vec![]), &search_terms("a")));
}

#[test]
fn all_ids_in_order() {
    let h = vec![
        HistoryEntry::Encrypted(EncryptedRecord { id: 5, date: 0, ciphertext: String::new() }),
        HistoryEntry::Encrypted(EncryptedRecord { id: 2, date: 0, ciphertext: String::new() }),
    ];
    assert_eq!(all_ids(&h), vec![5, 2]);
}
