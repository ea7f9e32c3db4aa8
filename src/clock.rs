//! The wall clock, used to stamp log lines.

use vstd::prelude::*;

verus! {

/// Relies on `chrono::Local::now()` formatted by `"%H:%M:%S"`: the local time of
/// day. It depends on the moment of the call, so nothing is promised of it.
#[verifier::external_body]
pub(crate) fn time_of_day() -> (r: String) {
    chrono::Local::now().format("%H:%M:%S").to_string()
}

} // verus!
