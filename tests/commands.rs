use clipboard_store::{
    copy_record, delete_record, filter_records, pin_record, unpin_record, update_max_items, ClipboardPayload, Config,
    RecordStore, StoreError,
};

#[test]
fn deleting_an_image_hands_back_its_blob() {
    let mut store = RecordStore::new("blobs".to_string());
    let saved = store.save_image_at(b"raw image bytes", 1).unwrap();
    let id = store.get_records("")[0].id;
    assert_eq!(delete_record(&mut store, id), Ok(Some(saved.path)));
    assert_eq!(store.get_record(&id).unwrap_err(), StoreError::NotFound);
    assert_eq!(delete_record(&mut store, id), Err(StoreError::NotFound));
    let orphans = store.filter_dangling_images(&vec![store.calc_hash(b"raw image bytes")]).unwrap();
    assert_eq!(orphans.len(), 1);
}

#[test]
fn deleting_a_text_hands_back_nothing() {
    let mut store = RecordStore::new("blobs".to_string());
    store.save_text_at("hello", 1).unwrap();
    assert_eq!(delete_record(&mut store, 1), Ok(None));
    assert!(store.get_records("").is_empty());
}

#[test]
fn commands_pin_unpin_and_filter() {
    let mut store = RecordStore::new("blobs".to_string());
    store.save_text_at("alpha", 1).unwrap();
    store.save_text_at("beta", 2).unwrap();
    assert_eq!(pin_record(&mut store, 1), Ok(()));
    assert_eq!(filter_records(&store, String::new())[0].id, 1);
    assert_eq!(unpin_record(&mut store, 1), Ok(()));
    assert_eq!(filter_records(&store, String::new())[0].id, 2);
    assert_eq!(filter_records(&store, "ALPHA".to_string()).len(), 1);
    assert_eq!(pin_record(&mut store, 9), Err(StoreError::NotFound));
    assert_eq!(unpin_record(&mut store, 9), Err(StoreError::NotFound));
}

#[test]
fn copy_record_picks_the_payload() {
    let mut store = RecordStore::new("blobs".to_string());
    store.save_text_at("paste me", 1).unwrap();
    let img = store.save_image_at(b"img", 2).unwrap();
    assert_eq!(copy_record(&store, 1), Ok(ClipboardPayload::Text("paste me".to_string())));
    assert_eq!(copy_record(&store, 2), Ok(ClipboardPayload::ImageFile(img.path)));
    assert_eq!(copy_record(&store, 3), Err(StoreError::NotFound));
}

#[test]
fn max_items_of_zero_is_refused() {
    let mut store = RecordStore::new("blobs".to_string());
    let mut config = Config::default();
    assert_eq!(config, Config { auto_start: false, max_items: 200 });
    assert!(!update_max_items(&mut config, &mut store, 0));
    assert_eq!(config.max_items, 200);
    assert!(update_max_items(&mut config, &mut store, 1));
    assert_eq!(config.max_items, 1);
    store.save_text_at("a", 1).unwrap();
    store.save_text_at("b", 2).unwrap();
    let all = store.get_records("");
    assert_eq!(all.len(), 1);
    assert_eq!(all[0].record_value, "b");
}
