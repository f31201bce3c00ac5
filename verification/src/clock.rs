use vstd::prelude::*;

verus! {

/// Relies on std::time::SystemTime::now: reads the system clock as
/// milliseconds since the Unix epoch. The reading depends on the clock, so
/// no property of the result is assumed; `None` comes back when the clock
/// reads earlier than the epoch.
#[verifier::external_body]
pub(crate) fn now_millis() -> (r: Option<u128>) {
    match std::time::SystemTime::now().duration_since(std::time::SystemTime::UNIX_EPOCH) {
        Ok(d) => Some(d.as_millis()),
        Err(_) => None,
    }
}

} // verus!
