//! The one place the library asks the host for the current time.

use vstd::prelude::*;

verus! {

/// Relies on chrono's `Local::now` and `DateTime::format`: the current local
/// time rendered as `YYYY-MM-DD HH:MM`. The result depends on the clock and
/// the machine's time zone, so nothing is promised of its content; callers
/// treat it as an arbitrary string. In pathological environments — a system
/// clock before the Unix epoch, or a local time zone the host cannot
/// resolve — chrono panics inside this call.
#[verifier::external_body]
pub(crate) fn now_timestamp() -> String {
    chrono::Local::now().format("%Y-%m-%d %H:%M").to_string()
}

} // verus!
