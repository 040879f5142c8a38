use vstd::prelude::*;

verus! {

/// Relies on std's `SystemTime::now` and `duration_since`: the seconds since
/// the Unix epoch.  A clock reading from before the epoch comes back as the
/// `Err` case and is mapped to zero, so the call cannot panic.  Nothing more
/// can be promised of a clock reading, so every scheduling function takes the
/// time as a plain argument and is verified for every value of it.
#[verifier::external_body]
fn now_seconds_raw() -> u64 {
    match std::time::SystemTime::now().duration_since(std::time::UNIX_EPOCH) {
        Ok(d) => d.as_secs(),
        Err(_) => 0,
    }
}

/// The current time as the nonnegative seconds the scheduling core works in;
/// a clock set before the epoch reads as zero.
pub fn current_time() -> u64 {
    now_seconds_raw()
}

} // verus!
