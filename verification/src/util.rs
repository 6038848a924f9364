use vstd::prelude::*;

verus! {

/// `std::time::SystemTime::now`, as whole seconds since the Unix epoch (zero
/// for a clock set before it). Nothing is promised of the value: it is the
/// machine's clock.
#[verifier::external_body]
pub fn get_time() -> u64 {
    match std::time::SystemTime::now().duration_since(std::time::UNIX_EPOCH) {
        Ok(d) => d.as_secs(),
        Err(_) => 0,
    }
}

} // verus!
