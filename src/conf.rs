use vstd::prelude::*;

use crate::store::{RecordStore, StoreView};

verus! {

/// The bound on the history that a fresh configuration sets.
pub const DEFAULT_MAX_ITEMS: u64 = 200;

/// User settings.
#[derive(Debug, Clone, Copy, PartialEq, Eq, Structural)]
pub struct Config {
    pub auto_start: bool,
    pub max_items: u64,
}

impl Default for Config {
    fn default() -> (r: Config)
        ensures
            r == (Config { auto_start: false, max_items: DEFAULT_MAX_ITEMS }),
    {
        Config { auto_start: false, max_items: DEFAULT_MAX_ITEMS }
    }
}

/// Sets a new bound on the history. Zero is refused and changes nothing;
/// any other bound goes to the store and to the configuration.
pub fn update_max_items(config: &mut Config, store: &mut RecordStore, max_items: u64) -> (ok: bool)
    requires
        old(store).wf(),
    ensures
        final(store).wf(),
        ok == (max_items > 0),
        !ok ==> *final(config) == *old(config) && final(store)@ == old(store)@,
        ok ==> *final(config) == (Config { max_items, ..*old(config) }),
        ok ==> final(store)@ == (StoreView { max_records: Some(max_items as nat), ..old(store)@ }),
{
    if max_items == 0 {
        return false;
    }
    match store.update_max_records_trigger(max_items) {
        Ok(()) => {},
        Err(_) => {
            return false;
        },
    }
    config.max_items = max_items;
    true
}

} // verus!
