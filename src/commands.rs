use vstd::prelude::*;

use crate::query::{matches_keyword, sorted_for_display};
use crate::record::{ClipboardRecord, RecordType, StoreError};
use crate::store::{has_id, index_of, with_pinned, without_id, RecordStore, StoreView};

verus! {

/// What goes back onto the clipboard when a record is chosen.
#[derive(Debug, Clone, PartialEq, Eq)]
pub enum ClipboardPayload {
    /// The text itself.
    Text(String),
    /// The path of the image blob.
    ImageFile(String),
}

/// Pins the record with this id.
pub fn pin_record(store: &mut RecordStore, id: i32) -> (res: Result<(), StoreError>)
    requires
        old(store).wf(),
    ensures
        final(store).wf(),
        res is Ok <==> has_id(old(store)@.records, id),
        res is Err ==> res == Err::<(), StoreError>(StoreError::NotFound) && final(store)@ == old(store)@,
        res is Ok ==> final(store)@ == (StoreView { records: with_pinned(old(store)@.records, id, true), ..old(store)@ }),
{
    match store.pin(&id) {
        Ok(_) => Ok(()),
        Err(e) => Err(e),
    }
}

/// Unpins the record with this id.
pub fn unpin_record(store: &mut RecordStore, id: i32) -> (res: Result<(), StoreError>)
    requires
        old(store).wf(),
    ensures
        final(store).wf(),
        res is Ok <==> has_id(old(store)@.records, id),
        res is Err ==> res == Err::<(), StoreError>(StoreError::NotFound) && final(store)@ == old(store)@,
        res is Ok ==> final(store)@ == (StoreView { records: with_pinned(old(store)@.records, id, false), ..old(store)@ }),
{
    match store.unpin(&id) {
        Ok(_) => Ok(()),
        Err(e) => Err(e),
    }
}

/// Deletes the record with this id. For an image the result is the path of
/// its blob, which the caller removes once the row is gone.
pub fn delete_record(store: &mut RecordStore, id: i32) -> (res: Result<Option<String>, StoreError>)
    requires
        old(store).wf(),
    ensures
        final(store).wf(),
        res is Ok <==> has_id(old(store)@.records, id),
        res is Err ==> res == Err::<Option<String>, StoreError>(StoreError::NotFound) && final(store)@ == old(store)@,
        final(store)@ == (StoreView { records: without_id(old(store)@.records, id), ..old(store)@ }),
        res matches Ok(blob) ==> ({
            let r = old(store)@.records[index_of(old(store)@.records, id)];
            &&& (r.record_type == RecordType::Image) == (blob is Some)
            &&& blob matches Some(p) ==> p@ == r.record_value@
        }),
{
    let record = match store.get_record(&id) {
        Ok(r) => r,
        Err(e) => {
            proof {
                assert(old(store)@ == (StoreView { records: without_id(old(store)@.records, id), ..old(store)@ }));
            }
            return Err(e);
        },
    };
    let _ = store.delete(&id);
    if record.record_type == RecordType::Image {
        Ok(Some(record.record_value))
    } else {
        Ok(None)
    }
}

/// The records that match `keyword`, in display order.
pub fn filter_records(store: &RecordStore, keyword: String) -> (r: Vec<ClipboardRecord>)
    requires
        store.wf(),
    ensures
        sorted_for_display(r@),
        forall|x: ClipboardRecord|
            #[trigger] r@.contains(x) <==> (store@.records.contains(x) && matches_keyword(x, keyword@)),
{
    store.get_records(keyword.as_str())
}

/// What to put back onto the clipboard for the record with this id.
pub fn copy_record(store: &RecordStore, id: i32) -> (res: Result<ClipboardPayload, StoreError>)
    requires
        store.wf(),
    ensures
        res is Ok <==> has_id(store@.records, id),
        res is Err ==> res == Err::<ClipboardPayload, StoreError>(StoreError::NotFound),
        res matches Ok(p) ==> ({
            let r = store@.records[index_of(store@.records, id)];
            match p {
                ClipboardPayload::Text(t) => r.record_type == RecordType::Text && t@ == r.record_value@,
                ClipboardPayload::ImageFile(f) => r.record_type == RecordType::Image && f@ == r.record_value@,
            }
        }),
{
    match store.get_record(&id) {
        Ok(r) => {
            if r.record_type == RecordType::Text {
                Ok(ClipboardPayload::Text(r.record_value))
            } else {
                Ok(ClipboardPayload::ImageFile(r.record_value))
            }
        },
        Err(e) => Err(e),
    }
}

} // verus!
