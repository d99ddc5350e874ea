use vstd::prelude::*;

verus! {

/// Relies on chrono's `Local::now` and `NaiveDateTime::timestamp_micros` (via
/// `and_utc`): the local wall-clock time in microseconds. Nothing is known of
/// the value.
#[verifier::external_body]
pub(crate) fn local_now_micros() -> (r: i64) {
    chrono::Local::now().naive_local().and_utc().timestamp_micros()
}

} // verus!
