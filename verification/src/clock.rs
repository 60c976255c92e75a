use vstd::prelude::*;
use crate::text::{dec_spec, dec_u64};

verus! {

/// Relies on std::time::SystemTime::now and duration_since: whole seconds
/// since the Unix epoch, or zero if the clock reads before it. Nothing
/// can be promised about the clock's value.
#[verifier::external_body]
fn now_secs() -> (r: u64) {
    std::time::SystemTime::now().duration_since(std::time::UNIX_EPOCH).unwrap_or(
        std::time::Duration::from_secs(0),
    ).as_secs()
}

/// The current Unix time in seconds, rendered in decimal: the stamp used
/// in report file names. Whatever the clock returned, the result is the
/// decimal form of that number.
pub fn now() -> (r: String)
    ensures
        exists|n: u64| r@ == dec_spec(n as int),
{
    let t = now_secs();
    let r = dec_u64(t);
    proof {
        assert(r@ == dec_spec(t as int));
    }
    r
}

} // verus!
