use pdf_summarizer::store::{DocumentRecord, Store};
use pdf_summarizer::DocError;

fn record(id: &str, filename: &str) -> DocumentRecord {
    DocumentRecord {
        id: id.to_string(),
        filename: filename.to_string(),
        timestamp: "2024-01-01 00:00:00".to_string(),
        word_count: 7,
        summary: "word (7)".to_string(),
    }
}

#[test]
fn new_store_is_empty() {
    let store = Store::new();
    assert_eq!(store.len(), 0);
    assert!(store.list().is_empty());
}

#[test]
fn insert_then_get() {
    let mut store = Store::new();
    assert!(store.insert(record("a1", "one.pdf")).is_ok());
    let rec = store.get("a1").expect("inserted record should be found");
    assert_eq!(rec.id, "a1");
    assert_eq!(rec.filename, "one.pdf");
    assert_eq!(rec.word_count, 7);
    assert!(store.get("a2").is_none());
}

#[test]
fn insert_duplicate_id_is_refused() {
    let mut store = Store::new();
    assert!(store.insert(record("a1", "one.pdf")).is_ok());
    let err = store.insert(record("a1", "two.pdf"));
    assert_eq!(err, Err(DocError::DuplicateId));
    assert_eq!(store.len(), 1);
    let rec = store.get("a1").unwrap();
    assert_eq!(rec.filename, "one.pdf");
}

#[test]
fn list_preserves_insertion_order() {
    let mut store = Store::new();
    assert!(store.insert(record("a1", "one.pdf")).is_ok());
    assert!(store.insert(record("b2", "two.pdf")).is_ok());
    assert!(store.insert(record("c3", "three.pdf")).is_ok());
    let all = store.list();
    assert_eq!(all.len(), 3);
    assert_eq!(all[0].id, "a1");
    assert_eq!(all[1].id, "b2");
    assert_eq!(all[2].id, "c3");
}

#[test]
fn remove_returns_the_record_and_drops_it() {
    let mut store = Store::new();
    assert!(store.insert(record("a1", "one.pdf")).is_ok());
    assert!(store.insert(record("b2", "two.pdf")).is_ok());
    let removed = store.remove("a1").expect("record should be removable");
    assert_eq!(removed.id, "a1");
    assert_eq!(store.len(), 1);
    assert!(store.get("a1").is_none());
    assert!(store.get("b2").is_some());
    assert!(store.remove("a1").is_none());
}

#[test]
fn many_distinct_inserts_are_all_kept() {
    let mut store = Store::new();
    for k in 0..25usize {
        let id = format!("id-{}", k);
        assert!(store.insert(record(&id, "doc.pdf")).is_ok());
    }
    assert_eq!(store.len(), 25);
    let all = store.list();
    for k in 0..25usize {
        assert_eq!(all[k].id, format!("id-{}", k));
    }
}
