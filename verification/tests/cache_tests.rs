use clipboard_history::cache::{DecryptedCache, DecryptedPreviewCache};
use clipboard_history::constants::cache::{MAX_ITEMS, PER_ITEM_MAX_BYTES, TOTAL_MAX_BYTES};
use clipboard_history::{CopiedObject, CopiedObjectPreview, ObjectContent, ObjectFormat, PreviewContent};

fn image(id: u32, size: usize) -> CopiedObject {
    CopiedObject {
        id,
        content: ObjectContent::Image(vec![7; size]),
        content_format: ObjectFormat::Image,
        date: id as u64,
        thumbnail: None,
        formatted_content: None,
    }
}

fn text(id: u32, s: &str) -> CopiedObject {
    CopiedObject {
        id,
        content: ObjectContent::Text(s.to_string()),
        content_format: ObjectFormat::Text,
        date: id as u64,
        thumbnail: None,
        formatted_content: None,
    }
}

fn preview(id: u32, size: usize) -> CopiedObjectPreview {
    CopiedObjectPreview {
        id,
        content_format: ObjectFormat::Image,
        date: id as u64,
        preview: PreviewContent::Image(vec![1; size]),
        has_formatting: false,
    }
}

#[test]
fn cache_insert_then_get() {
    let mut c = DecryptedCache::new();
    c.insert(1, text(1, "one"));
    assert_eq!(c.get(1), Some(text(1, "one")));
    assert_eq!(c.get(2), None);
}

#[test]
fn cache_insert_replaces_same_id() {
    let mut c = DecryptedCache::default();
    c.insert(1, text(1, "one"));
    c.insert(1, text(1, "uno"));
    assert_eq!(c.get(1), Some(text(1, "uno")));
}

#[test]
fn cache_refuses_oversized_object() {
    let mut c = DecryptedCache::new();
    c.insert(1, image(1, PER_ITEM_MAX_BYTES + 1));
    assert_eq!(c.get(1), None);
    c.insert(2, image(2, PER_ITEM_MAX_BYTES));
    assert!(c.get(2).is_some());
}

#[test]
fn cache_evicts_least_recent_over_byte_limit() {
    let mut c = DecryptedCache::new();
    let per = PER_ITEM_MAX_BYTES;
    for id in 1..=4 {
        c.insert(id, image(id, per));
    }
    assert_eq!(4 * per, TOTAL_MAX_BYTES);
    c.insert(5, image(5, 1));
    assert_eq!(c.get(1), None);
    assert!(c.get(2).is_some());
    assert!(c.get(5).is_some());
}

#[test]
fn cache_get_protects_from_eviction() {
    let mut c = DecryptedCache::new();
    let per = PER_ITEM_MAX_BYTES;
    for id in 1..=4 {
        c.insert(id, image(id, per));
    }
    assert!(c.get(1).is_some());
    c.insert(5, image(5, 1));
    assert!(c.get(1).is_some());
    assert_eq!(c.get(2), None);
}

#[test]
fn cache_evicts_over_item_limit() {
    let mut c = DecryptedCache::new();
    for id in 0..(MAX_ITEMS as u32 + 1) {
        c.insert(id, text(id, "x"));
    }
    assert_eq!(c.get(0), None);
    assert!(c.get(1).is_some());
    assert!(c.get(MAX_ITEMS as u32).is_some());
}

#[test]
fn cache_remove_then_get_is_none() {
    let mut c = DecryptedCache::new();
    c.insert(1, text(1, "one"));
    c.insert(2, text(2, "two"));
    c.remove(1);
    assert_eq!(c.get(1), None);
    assert_eq!(c.get(2), Some(text(2, "two")));
    c.remove(42);
    assert_eq!(c.get(2), Some(text(2, "two")));
}

#[test]
fn cache_clear_empties() {
    let mut c = DecryptedCache::new();
    c.insert(1, text(1, "one"));
    c.insert(2, text(2, "two"));
    c.clear();
    assert_eq!(c.get(1), None);
    assert_eq!(c.get(2), None);
}

#[test]
fn preview_cache_insert_get_remove() {
    let mut c = DecryptedPreviewCache::new();
    c.insert(3, preview(3, 10));
    assert_eq!(c.get(3), Some(preview(3, 10)));
    c.remove(3);
    assert_eq!(c.get(3), None);
}

#[test]
fn preview_cache_evicts_over_byte_limit_only() {
    let mut c = DecryptedPreviewCache::default();
    for id in 0..300u32 {
        c.insert(id, preview(id, 1));
    }
    assert!(c.get(0).is_some());
    c.insert(1000, preview(1000, TOTAL_MAX_BYTES));
    assert_eq!(c.get(0), None);
    assert!(c.get(1000).is_some());
}

#[test]
fn preview_cache_drops_preview_larger_than_total() {
    let mut c = DecryptedPreviewCache::new();
    c.insert(1, preview(1, 5));
    c.insert(2, preview(2, TOTAL_MAX_BYTES + 1));
    assert_eq!(c.get(2), None);
    assert_eq!(c.get(1), None);
}

#[test]
fn preview_cache_clear_empties() {
    let mut c = DecryptedPreviewCache::new();
    c.insert(1, preview(1, 5));
    assert_eq!(c.get(1), Some(preview(1, 5)));
    c.clear();
    assert_eq!(c.get(1), None);
}
