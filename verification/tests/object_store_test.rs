use longcut::object_store::GdkObjectStore;

#[test]
fn an_inserted_object_is_found_under_its_handle() {
    let mut store: GdkObjectStore<String> = GdkObjectStore::new();
    let (first, stored) = store.insert("first".to_string());
    stored.push('!');
    let (second, _) = store.insert("second".to_string());
    assert!(first != second);
    assert_eq!(store.get_mut(&first).unwrap(), "first!");
    assert_eq!(store.get_mut(&second).unwrap(), "second");
}

#[test]
fn a_removed_object_is_gone_and_its_handle_is_not_reused() {
    let mut store: GdkObjectStore<u8> = GdkObjectStore::new();
    let (first, _) = store.insert(1);
    store.remove(first);
    assert!(store.get_mut(&first).is_none());
    let (second, _) = store.insert(2);
    assert!(first != second);
    assert!(store.get_mut(&first).is_none());
    *store.get_mut(&second).unwrap() += 1;
    assert_eq!(*store.get_mut(&second).unwrap(), 3);
}
