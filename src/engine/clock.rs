use vstd::prelude::*;

verus! {

#[verifier::external_type_specification]
#[verifier::external_body]
pub struct ExInstant(std::time::Instant);

/// Relies on `std::time::Instant::now`: the current instant of a monotonic clock.
#[verifier::external_body]
fn instant_now() -> (r: std::time::Instant) {
    std::time::Instant::now()
}

/// Relies on `std::time::Instant::elapsed`: the time passed since `i`.
#[verifier::external_body]
fn elapsed_since(i: &std::time::Instant) -> (r: std::time::Duration) {
    i.elapsed()
}

/// Relies on `std::time::Duration::as_secs`: the whole seconds of `d`.
#[verifier::external_body]
fn whole_secs(d: &std::time::Duration) -> (r: u64) {
    d.as_secs()
}

/// The timestamp stamped on events: whole seconds elapsed on a monotonic
/// clock since the operation started. Nothing is known of its value.
pub fn event_timestamp() -> (ts: u64) {
    let start = instant_now();
    let d = elapsed_since(&start);
    whole_secs(&d)
}

} // verus!
