use clipboard_store::{Applied, ClipboardRecord, RecordStore, RecordType, StoreError};
use image::{DynamicImage, ImageBuffer, ImageFormat, Rgba};
use std::io::Cursor;

const IMG_DIR_PATH: &str = "images";
const TEXT_VALUE: &str = "foo";
const SOME_TEXT_NOT_IN_DB: &str = "Dolor culpa ut nisi qui veniam proident Lorem proident enim ea. Consequat adipisicing officia consectetur do sit deserunt. Veniam nostrud laboris ipsum sunt deserunt ex nulla minim nostrud voluptate consequat excepteur. Consequat tempor sint adipisicing minim anim. Ad eu nisi id in culpa qui ut eiusmod minim veniam ea. Esse non voluptate eiusmod officia duis consectetur dolore eu nulla ullamco labore id nulla.";

struct SharedData {
    text_record_id: i32,
    img_record_id: i32,
}

fn now_micros() -> i64 {
    chrono::Local::now().naive_local().and_utc().timestamp_micros()
}

fn wait_until_after(t: i64) {
    while now_micros() <= t {}
}

fn png_bytes() -> Vec<u8> {
    let img_value = ImageBuffer::from_fn(8, 8, |x, y| {
        if (x * y) % 2 == 0 {
            Rgba([255, 0, 0, 255])
        } else {
            Rgba([0, 255, 0, 255])
        }
    });
    let dynamic_image = DynamicImage::ImageRgba8(img_value);
    let mut img_bytes: Vec<u8> = Vec::new();
    dynamic_image
        .write_to(&mut Cursor::new(&mut img_bytes), ImageFormat::Png)
        .unwrap();
    img_bytes
}

fn find_by_value<'a>(records: &'a [ClipboardRecord], value: &str, kind: RecordType) -> Option<&'a ClipboardRecord> {
    records
        .iter()
        .find(|r| r.record_value == value && r.record_type == kind)
}

/// The state that the first scenario leaves: "foo" and one image, bound 2.
fn saved_store() -> (RecordStore, SharedData) {
    let mut store = RecordStore::new(IMG_DIR_PATH.to_string());
    store.init(2).unwrap();
    store.save_text(TEXT_VALUE).unwrap();
    let text = store.get_records(TEXT_VALUE);
    let text_record_id = find_by_value(&text, TEXT_VALUE, RecordType::Text).unwrap().id;
    wait_until_after(now_micros());
    let img_bytes = png_bytes();
    let saved = store.save_image(&img_bytes).unwrap();
    let all = store.get_records("");
    let img_record_id = find_by_value(&all, &saved.path, RecordType::Image).unwrap().id;
    (store, SharedData { text_record_id, img_record_id })
}

#[test]
fn test_01_save() {
    let mut store = RecordStore::new(IMG_DIR_PATH.to_string());
    assert!(store.init(2).is_ok());

    // text
    let result = store.save_text(TEXT_VALUE);
    assert!(result.is_ok());

    let records = store.get_records(TEXT_VALUE);
    let result = find_by_value(&records, TEXT_VALUE, RecordType::Text);
    assert!(result.is_some());
    let result = result.unwrap();
    assert!(result.id > 0);
    assert!(result.record_type == RecordType::Text);
    assert!(result.updated_at < now_micros());

    // image
    let img_bytes = png_bytes();
    let result = store.save_image(&img_bytes);
    assert!(result.is_ok());

    let img_hash = store.calc_hash(&img_bytes);
    let image_path = format!("{}/{}.png", store.img_dir, &img_hash);
    let query_image_res = |store: &RecordStore| -> (i32, i64) {
        let all = store.get_records("");
        let img_record = find_by_value(&all, &image_path, RecordType::Image).unwrap();
        (img_record.id, img_record.updated_at)
    };

    let (img_record_id, updated_at) = query_image_res(&store);
    assert!(img_record_id > 0);
    assert!(updated_at < now_micros());

    // Make sure the time interval between the first saving and the second
    // is greater than 1 second.
    wait_until_after(updated_at + 1_000_000);

    // Check repeat saving
    store.save_image(&img_bytes).unwrap();
    let (img_record_id_repeat, updated_at_repeat) = query_image_res(&store);
    assert_eq!(img_record_id, img_record_id_repeat);
    assert_ne!(updated_at, updated_at_repeat);
}

#[test]
fn test_02_get_record() {
    let (store, data) = saved_store();

    let record = store.get_record(&data.text_record_id).unwrap();
    assert_eq!(record.id, data.text_record_id);

    let records = store.get_records(TEXT_VALUE);
    assert!(records.iter().any(|record| record.record_value == TEXT_VALUE));

    let records = store.get_records(SOME_TEXT_NOT_IN_DB);
    assert_eq!(records.len(), 0);
}

#[test]
fn test_03_toggle_pinned() {
    let (mut store, data) = saved_store();
    store.pin(&data.text_record_id).unwrap();
    let records = store.get_records("");
    let [record, ..] = records.as_slice() else {
        panic!("Empty records")
    };
    assert_eq!(record.id, data.text_record_id);
    assert_eq!(record.pinned, true);

    store.unpin(&data.text_record_id).unwrap();

    let the_pinned_result = store.get_record(&record.id).unwrap();
    assert_eq!(the_pinned_result.pinned, false);
}

#[test]
fn test_04_max_records() {
    let (mut store, mut data) = saved_store();

    let text_value = &format!("{}{}", TEXT_VALUE, TEXT_VALUE);
    wait_until_after(now_micros());
    store.save_text(text_value).unwrap();

    let result = store.get_record(&data.text_record_id);
    assert!(result.is_err());

    let records = store.get_records(text_value);
    let newly_saved_record_result = find_by_value(&records, text_value, RecordType::Text).unwrap();
    assert!(newly_saved_record_result.id > 0);

    data.text_record_id = newly_saved_record_result.id;
    assert!(store.get_record(&data.text_record_id).is_ok());
}

#[test]
fn test_05_delete_record() {
    let (mut store, data) = saved_store();
    store.delete(&data.text_record_id).unwrap();
    store.delete(&data.img_record_id).unwrap();

    let result = store
        .get_records("")
        .into_iter()
        .find(|r| r.id == data.text_record_id || r.id == data.img_record_id);

    assert!(result.is_none());
}

#[test]
fn repeat_text_save_refreshes_one_row() {
    let mut store = RecordStore::new(IMG_DIR_PATH.to_string());
    assert_eq!(store.save_text_at("foo", 10), Ok(Applied::Inserted));
    assert_eq!(store.save_text_at("foo", 20), Ok(Applied::Updated));
    let all = store.get_records("");
    assert_eq!(all.len(), 1);
    assert_eq!(all[0].record_value, "foo");
    assert_eq!(all[0].updated_at, 20);
    assert_eq!(all[0].record_hash, None);
    assert_eq!(all[0].id, 1);
}

#[test]
fn long_text_is_keyed_by_its_hash() {
    let mut store = RecordStore::new(IMG_DIR_PATH.to_string());
    let long = "x".repeat(51);
    let short = "y".repeat(50);
    store.save_text_at(&long, 1).unwrap();
    store.save_text_at(&short, 2).unwrap();
    let all = store.get_records("");
    let l = find_by_value(&all, &long, RecordType::Text).unwrap();
    let s = find_by_value(&all, &short, RecordType::Text).unwrap();
    assert_eq!(l.record_hash, Some(store.calc_hash(long.as_bytes())));
    assert_eq!(s.record_hash, None);
    assert_eq!(store.save_text_at(&long, 3), Ok(Applied::Updated));
    assert_eq!(store.get_records("").len(), 2);
}

#[test]
fn calc_hash_is_sha256_hex() {
    let store = RecordStore::new(IMG_DIR_PATH.to_string());
    assert_eq!(
        store.calc_hash(b"abc"),
        "ba7816bf8f01cfea414140de5dae2223b00361a396177a9cb410ff61f20015ad"
    );
    assert_eq!(
        store.calc_hash(b""),
        "e3b0c44298fc1c149afbf4c8996fb92427ae41e4649b934ca495991b7852b855"
    );
}

#[test]
fn identical_image_bytes_give_one_row_and_one_blob_write() {
    let mut store = RecordStore::new(IMG_DIR_PATH.to_string());
    let bytes = png_bytes();
    let first = store.save_image_at(&bytes, 100).unwrap();
    let second = store.save_image_at(&bytes, 200).unwrap();
    assert_eq!(first.applied, Applied::Inserted);
    assert_eq!(second.applied, Applied::Updated);
    let hash = store.calc_hash(&bytes);
    assert_eq!(first.path, format!("images/{}.png", hash));
    assert_eq!(second.path, first.path);
    let stem = first.path.strip_prefix("images/").unwrap().strip_suffix(".png").unwrap();
    assert_eq!(stem, hash);
    let all = store.get_records("");
    assert_eq!(all.len(), 1);
    assert_eq!(all[0].record_type, RecordType::Image);
    assert_eq!(all[0].record_hash, Some(hash));
    assert_eq!(all[0].updated_at, 200);
}

#[test]
fn bound_of_two_keeps_the_two_newest() {
    let mut store = RecordStore::new(IMG_DIR_PATH.to_string());
    store.init(2).unwrap();
    store.save_text_at("a", 1).unwrap();
    store.save_text_at("b", 2).unwrap();
    store.save_text_at("c", 3).unwrap();
    let all = store.get_records("");
    let values: Vec<&str> = all.iter().map(|r| r.record_value.as_str()).collect();
    assert_eq!(values, vec!["c", "b"]);
}

#[test]
fn pinned_row_survives_any_number_of_insertions() {
    let mut store = RecordStore::new(IMG_DIR_PATH.to_string());
    store.init(2).unwrap();
    store.save_text_at("a", 1).unwrap();
    let a = store.get_records("a")[0].id;
    store.pin(&a).unwrap();
    for (i, v) in ["b", "c", "d", "e"].iter().enumerate() {
        store.save_text_at(v, 10 + i as i64).unwrap();
        let all = store.get_records("");
        assert!(all.iter().any(|r| r.id == a && r.pinned));
        assert_eq!(all.len(), 2);
    }
    let all = store.get_records("");
    assert_eq!(all[0].record_value, "a");
    assert_eq!(all[1].record_value, "e");
}

#[test]
fn only_pinned_rows_exceed_the_bound() {
    let mut store = RecordStore::new(IMG_DIR_PATH.to_string());
    store.save_text_at("a", 1).unwrap();
    store.save_text_at("b", 2).unwrap();
    store.pin(&1).unwrap();
    store.pin(&2).unwrap();
    store.init(1).unwrap();
    assert_eq!(store.save_text_at("c", 3), Ok(Applied::Inserted));
    let all = store.get_records("");
    let values: Vec<&str> = all.iter().map(|r| r.record_value.as_str()).collect();
    assert_eq!(values, vec!["b", "a"]);
}

#[test]
fn overflow_deletes_exactly_the_oldest() {
    let mut store = RecordStore::new(IMG_DIR_PATH.to_string());
    store.save_text_at("t2", 2).unwrap();
    store.save_text_at("t1", 1).unwrap();
    store.init(2).unwrap();
    store.save_text_at("t3", 3).unwrap();
    let all = store.get_records("");
    let values: Vec<&str> = all.iter().map(|r| r.record_value.as_str()).collect();
    assert_eq!(values, vec!["t3", "t2"]);
}

#[test]
fn lowered_bound_applies_at_next_insertion() {
    let mut store = RecordStore::new(IMG_DIR_PATH.to_string());
    for (i, v) in ["a", "b", "c", "d"].iter().enumerate() {
        store.save_text_at(v, i as i64).unwrap();
    }
    store.update_max_records_trigger(2).unwrap();
    assert_eq!(store.get_records("").len(), 4);
    store.save_text_at("e", 10).unwrap();
    let all = store.get_records("");
    let values: Vec<&str> = all.iter().map(|r| r.record_value.as_str()).collect();
    assert_eq!(values, vec!["e", "d"]);
}

#[test]
fn refresh_does_not_trigger_retention() {
    let mut store = RecordStore::new(IMG_DIR_PATH.to_string());
    store.save_text_at("a", 1).unwrap();
    store.save_text_at("b", 2).unwrap();
    store.save_text_at("c", 3).unwrap();
    store.init(1).unwrap();
    assert_eq!(store.save_text_at("a", 4), Ok(Applied::Updated));
    assert_eq!(store.get_records("").len(), 3);
    assert_eq!(store.get_records("")[0].record_value, "a");
}

#[test]
fn orphan_blobs_are_reported_and_live_ones_kept() {
    let mut store = RecordStore::new(IMG_DIR_PATH.to_string());
    let bytes = png_bytes();
    store.save_image_at(&bytes, 1).unwrap();
    let live = store.calc_hash(&bytes);
    let stray = store.calc_hash(b"not an image");
    let listed = vec![stray.clone(), live.clone()];
    assert_eq!(store.filter_dangling_images(&listed), Ok(vec![stray.clone()]));
    let again = store.filter_dangling_images(&vec![stray.clone()]).unwrap();
    assert_eq!(again, vec![stray]);
    store.save_text_at(&"z".repeat(60), 2).unwrap();
    let text_hash = store.calc_hash("z".repeat(60).as_bytes());
    assert_eq!(store.filter_dangling_images(&vec![text_hash.clone()]), Ok(vec![text_hash]));
}

#[test]
fn query_orders_pinned_first_then_newest() {
    let mut store = RecordStore::new(IMG_DIR_PATH.to_string());
    store.save_text_at("one", 1).unwrap();
    store.save_text_at("two", 2).unwrap();
    store.save_text_at("three", 3).unwrap();
    store.pin(&1).unwrap();
    let ids: Vec<i32> = store.get_records("").iter().map(|r| r.id).collect();
    assert_eq!(ids, vec![1, 3, 2]);
    assert_eq!(store.get_records("xyz").len(), 0);
}

#[test]
fn query_ignores_case() {
    let mut store = RecordStore::new(IMG_DIR_PATH.to_string());
    store.save_text_at("Hello World", 1).unwrap();
    store.save_text_at("other", 2).unwrap();
    let found = store.get_records("hELLO");
    assert_eq!(found.len(), 1);
    assert_eq!(found[0].record_value, "Hello World");
    assert_eq!(store.get_records("WORLD").len(), 1);
    assert_eq!(store.get_records("O").len(), 2);
}

#[test]
fn pin_and_get_of_missing_id_fail() {
    let mut store = RecordStore::new(IMG_DIR_PATH.to_string());
    assert_eq!(store.pin(&7).unwrap_err(), StoreError::NotFound);
    assert_eq!(store.unpin(&7).unwrap_err(), StoreError::NotFound);
    assert_eq!(store.get_record(&7).unwrap_err(), StoreError::NotFound);
    assert_eq!(store.delete(&7), Ok(0));
}

#[test]
fn record_type_tags_round_trip() {
    assert_eq!(RecordType::Image.to_string(), "image");
    assert_eq!(RecordType::Text.to_string(), "text");
    assert_eq!(RecordType::from_string("image"), Ok(RecordType::Image));
    assert_eq!(RecordType::from_string("text"), Ok(RecordType::Text));
    assert_eq!(RecordType::from_string("Text"), Err(StoreError::InvalidKind));
    assert_eq!(RecordType::from_string(""), Err(StoreError::InvalidKind));
}

fn row(id: i32, value: &str, hash: Option<&str>) -> ClipboardRecord {
    ClipboardRecord {
        id,
        record_type: RecordType::Text,
        record_value: value.to_string(),
        record_hash: hash.map(|h| h.to_string()),
        updated_at: id as i64,
        pinned: false,
    }
}

#[test]
fn store_rebuilds_from_its_rows() {
    let mut store = RecordStore::new(IMG_DIR_PATH.to_string());
    store.save_text_at("a", 1).unwrap();
    store.save_text_at("b", 2).unwrap();
    store.delete(&1).unwrap();
    let rebuilt = RecordStore::from_records(IMG_DIR_PATH.to_string(), store.next_id(), store.records()).unwrap();
    assert_eq!(rebuilt.next_id(), 3);
    assert_eq!(rebuilt.records().len(), 1);
    assert_eq!(rebuilt.records()[0].record_value, "b");
    assert_eq!(rebuilt.max_records(), None);
}

#[test]
fn malformed_rows_are_refused() {
    let dir = || IMG_DIR_PATH.to_string();
    assert!(RecordStore::from_records(dir(), 3, vec![row(1, "a", None), row(2, "b", None)]).is_ok());
    let dup_value = vec![row(1, "a", None), row(2, "a", None)];
    assert_eq!(RecordStore::from_records(dir(), 3, dup_value).err(), Some(StoreError::StorageFailure));
    let dup_id = vec![row(1, "a", None), row(1, "b", None)];
    assert_eq!(RecordStore::from_records(dir(), 3, dup_id).err(), Some(StoreError::StorageFailure));
    let dup_hash = vec![row(1, "a", Some("h")), row(2, "b", Some("h"))];
    assert_eq!(RecordStore::from_records(dir(), 3, dup_hash).err(), Some(StoreError::StorageFailure));
    let id_too_high = vec![row(3, "a", None)];
    assert_eq!(RecordStore::from_records(dir(), 3, id_too_high).err(), Some(StoreError::StorageFailure));
    assert_eq!(RecordStore::from_records(dir(), 0, vec![]).err(), Some(StoreError::StorageFailure));
    let id_zero = vec![row(0, "a", None)];
    assert_eq!(RecordStore::from_records(dir(), 3, id_zero).err(), Some(StoreError::StorageFailure));
}

#[test]
fn exhausted_ids_fail_an_insertion_but_not_a_refresh() {
    let rows = vec![row(5, "a", None)];
    let mut store = RecordStore::from_records(IMG_DIR_PATH.to_string(), i32::MAX, rows).unwrap();
    assert_eq!(store.save_text_at("new", 9), Err(StoreError::StorageFailure));
    assert_eq!(store.records().len(), 1);
    assert_eq!(store.save_text_at("a", 9), Ok(Applied::Updated));
}
