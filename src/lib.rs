//! A bounded, deduplicating history of captured clipboard values.
//!
//! The store keeps one live record per distinct value (or per distinct
//! content hash), caps the number of unpinned records, and tells its host
//! which content-addressed image blobs have become orphans.

pub mod record;
pub mod retention;
pub mod hasher;
mod clock;
pub mod store;
pub mod query;
pub mod commands;
pub mod conf;
pub mod window;

pub use commands::{copy_record, delete_record, filter_records, pin_record, unpin_record, ClipboardPayload};
pub use conf::{update_max_items, Config};
pub use record::{ClipboardRecord, NewClipboardRecord, RecordType, StoreError};
pub use store::{Applied, RecordStore, SavedImage};
pub use window::WindowInfo;
