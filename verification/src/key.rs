//! Session keys: an opaque tag chosen once per endpoint from the wall
//! clock, carried in every packet; a peer that sees a different key knows
//! the other side restarted and resets its per-peer state.

use vstd::prelude::*;
use crate::entities::SessionKey;

verus! {

/// Samples the wall clock for a fresh session tag.  The only property the
/// protocol needs is that two samples taken by different endpoint
/// incarnations are almost surely different; nothing more is stated.
///
/// Relies on `std::time::SystemTime::now` and `duration_since`: the
/// duration since the epoch, split into whole seconds and the nanosecond
/// remainder, which `Duration::subsec_nanos` keeps below one billion.
#[verifier::external_body]
pub fn new_key() -> (r: SessionKey)
    ensures
        r.nanos < 1_000_000_000,
{
    let d = match std::time::SystemTime::now().duration_since(std::time::UNIX_EPOCH) {
        Ok(d) => d,
        Err(e) => e.duration(),
    };
    SessionKey { secs: d.as_secs(), nanos: d.subsec_nanos() as u64 }
}

/// Holds the endpoint's own key and stamps it into outbound packets.
pub struct Generator {
    pub key: SessionKey,
}

impl Generator {
    pub fn new() -> (r: Generator)
        ensures
            r.key.nanos < 1_000_000_000,
    {
        Generator { key: new_key() }
    }

    pub fn generate(&self) -> (r: SessionKey)
        ensures
            r == self.key,
    {
        self.key
    }
}

/// Remembers the peer's current key; a mismatch signals a new session.
pub struct Filter {
    pub key: SessionKey,
}

impl Filter {
    pub fn new(key: SessionKey) -> (r: Filter)
        ensures
            r.key == key,
    {
        Filter { key }
    }

    pub fn is_valid(&self, key: SessionKey) -> (r: bool)
        ensures
            r == (self.key == key),
    {
        self.key == key
    }
}

} // verus!
