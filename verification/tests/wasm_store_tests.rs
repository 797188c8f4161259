use shabti::wasm_store::InMemoryStore;

#[test]
fn wasm_store_tests_store_and_get() {
    let mut store: InMemoryStore<Vec<f32>> = InMemoryStore::new();

    let id = store.store("Hello world", vec![0.1, 0.2, 0.3], "default");
    let entry = store.get(&id);

    assert!(entry.is_some());
    let entry = entry.unwrap();
    assert_eq!(entry.content, "Hello world");
    assert_eq!(entry.namespace, "default");
    assert_eq!(entry.embedding, vec![0.1, 0.2, 0.3]);
}

#[test]
fn get_nonexistent() {
    let store: InMemoryStore<Vec<f32>> = InMemoryStore::new();
    assert!(store.get("nonexistent-id").is_none());
}

#[test]
fn delete_entry() {
    let mut store: InMemoryStore<Vec<f32>> = InMemoryStore::new();

    let id = store.store("To delete", vec![1.0, 0.0, 0.0], "default");
    assert!(store.get(&id).is_some());

    assert!(store.delete(&id));
    assert!(store.get(&id).is_none());
}

#[test]
fn delete_nonexistent() {
    let mut store: InMemoryStore<Vec<f32>> = InMemoryStore::new();
    assert!(!store.delete("nonexistent"));
}

#[test]
fn entry_count() {
    let mut store: InMemoryStore<Vec<f32>> = InMemoryStore::new();
    assert_eq!(store.count(), 0);

    store.store("A", vec![1.0], "default");
    store.store("B", vec![0.5], "default");
    assert_eq!(store.count(), 2);

    let id = store.store("C", vec![0.3], "default");
    store.delete(&id);
    assert_eq!(store.count(), 2);
}

#[test]
fn stored_ids_are_hyphenated_uuids_in_insertion_order() {
    let mut store: InMemoryStore<u8> = InMemoryStore::new();
    let a = store.store("a", 1, "x");
    let b = store.store("b", 2, "y");
    assert_ne!(a, b);
    assert_eq!(uuid::Uuid::parse_str(&a).unwrap().hyphenated().to_string(), a);
    let ids: Vec<&str> = store.entries().iter().map(|e| e.id.as_str()).collect();
    assert_eq!(ids, vec![a.as_str(), b.as_str()]);
}
