use fabric::persistence::Storage;

#[test]
fn test_storage_operations() {
    let mut storage = Storage::new();

    let id = "test-doc";
    let data = b"test data";
    let metadata = "{\"key\":\"value\"}".to_string();

    storage.store_document(id, data, &metadata, 1_700_000_000);

    let doc = storage.get_document(id).unwrap();
    assert_eq!(doc.id, id);
    assert_eq!(doc.data, data);
    assert_eq!(doc.metadata, metadata);

    let docs = storage.list_documents(Some(10), Some(0));
    assert!(!docs.is_empty());

    let search_results = storage.search_documents("test", Some(10));
    assert!(!search_results.is_empty());

    let deleted = storage.delete_document(id);
    assert!(deleted);

    let doc = storage.get_document(id);
    assert!(doc.is_none());
}

#[test]
fn store_again_keeps_the_time_of_creation() {
    let mut storage = Storage::new();
    storage.store_document("doc", b"one", "m1", 100);
    let first = storage.get_document("doc").unwrap();
    assert_eq!((first.created_at, first.updated_at), (100, 100));
    storage.store_document("doc", b"two", "m2", 250);
    let second = storage.get_document("doc").unwrap();
    assert_eq!(second.created_at, 100);
    assert_eq!(second.updated_at, 250);
    assert_eq!(second.data, b"two");
    assert_eq!(second.metadata, "m2");
    assert_eq!(storage.document_count(), 1);
}

#[test]
fn delete_reports_whether_a_row_was_removed() {
    let mut storage = Storage::new();
    assert!(!storage.delete_document("doc"));
    storage.store_document("doc", b"", "", 1);
    storage.store_document("other", b"", "", 2);
    assert!(storage.delete_document("doc"));
    assert!(!storage.delete_document("doc"));
    assert!(storage.get_document("doc").is_none());
    assert!(storage.get_document("other").is_some());
    assert_eq!(storage.document_count(), 1);
}

#[test]
fn listing_is_newest_first_and_paginated() {
    let mut storage = Storage::new();
    storage.store_document("a", b"", "", 10);
    storage.store_document("b", b"", "", 30);
    storage.store_document("c", b"", "", 20);
    storage.store_document("d", b"", "", 30);
    let ids = |docs: Vec<fabric::persistence::StoredDocument>| -> Vec<String> {
        docs.into_iter().map(|d| d.id).collect()
    };
    // Of two documents updated at the same time the later write comes first.
    assert_eq!(ids(storage.list_documents(None, None)), vec!["d", "b", "c", "a"]);
    assert_eq!(ids(storage.list_documents(Some(2), None)), vec!["d", "b"]);
    assert_eq!(ids(storage.list_documents(Some(2), Some(1))), vec!["b", "c"]);
    assert_eq!(ids(storage.list_documents(Some(10), Some(3))), vec!["a"]);
    assert!(storage.list_documents(Some(10), Some(4)).is_empty());
    assert!(storage.list_documents(Some(10), Some(i64::MAX)).is_empty());
    assert!(storage.list_documents(Some(0), None).is_empty());
    assert_eq!(ids(storage.list_documents(Some(-1), Some(-5))), vec!["d", "b", "c", "a"]);
    assert_eq!(ids(storage.list_documents(Some(i64::MAX), Some(2))), vec!["c", "a"]);
    // A write moves the document to the front.
    storage.store_document("a", b"", "", 40);
    assert_eq!(ids(storage.list_documents(None, None)), vec!["a", "d", "b", "c"]);
}

#[test]
fn listing_returns_a_hundred_by_default() {
    let mut storage = Storage::new();
    for i in 0..105 {
        storage.store_document(&format!("doc{}", i), b"", "", i);
    }
    let page = storage.list_documents(None, None);
    assert_eq!(page.len(), 100);
    assert_eq!(page[0].id, "doc104");
    assert_eq!(page[99].id, "doc5");
    assert_eq!(storage.list_documents(Some(-1), None).len(), 105);
    assert_eq!(storage.search_documents("doc", None).len(), 100);
    assert_eq!(storage.search_documents("doc", Some(-1)).len(), 105);
}

#[test]
fn search_is_by_substring_of_id_or_metadata() {
    let mut storage = Storage::new();
    storage.store_document("invoice-1", b"", "{\"customer\":\"Ada\"}", 1);
    storage.store_document("invoice-2", b"", "{\"customer\":\"Bob\"}", 2);
    storage.store_document("letter", b"", "about an invoice", 3);
    storage.store_document("memo", b"invoice in the data only", "", 4);
    let ids = |docs: Vec<fabric::persistence::StoredDocument>| -> Vec<String> {
        docs.into_iter().map(|d| d.id).collect()
    };
    assert_eq!(ids(storage.search_documents("invoice", None)), vec!["letter", "invoice-2", "invoice-1"]);
    assert_eq!(ids(storage.search_documents("invoice", Some(2))), vec!["letter", "invoice-2"]);
    assert_eq!(ids(storage.search_documents("Ada", None)), vec!["invoice-1"]);
    // Case matters.
    assert!(storage.search_documents("ada", None).is_empty());
    assert!(storage.search_documents("Invoice", None).is_empty());
    // The empty query finds every document.
    assert_eq!(storage.search_documents("", None).len(), 4);
    assert!(storage.search_documents("", Some(0)).is_empty());
    assert!(storage.search_documents("invoice-10", None).is_empty());
}

#[test]
fn restore_puts_a_row_back_as_it_is() {
    let mut storage = Storage::new();
    storage.store_document("a", b"x", "m", 5);
    let mut row = storage.get_document("a").unwrap();
    row.created_at = 1;
    row.updated_at = 9;
    row.data = b"y".to_vec();
    let mut rebuilt = Storage::new();
    rebuilt.store_document("b", b"", "", 7);
    rebuilt.restore_document(row);
    let back = rebuilt.get_document("a").unwrap();
    assert_eq!((back.created_at, back.updated_at), (1, 9));
    assert_eq!(back.data, b"y");
    let ids: Vec<String> = rebuilt.list_documents(None, None).into_iter().map(|d| d.id).collect();
    assert_eq!(ids, vec!["a", "b"]);
}
