//! The protocol version check: a peer built against another library
//! version is refused so both sides upgrade in step.

use vstd::prelude::*;
use crate::entities::Exception;
use crate::entities::PROTOCOL_VERSION;

verus! {

/// Checks and supplies the wire protocol version.
pub struct VersionChecker;

impl VersionChecker {
    /// Accepts exactly the version this library speaks.
    pub fn check(&self, protocol_version: u8) -> (r: Result<(), Exception>)
        ensures
            protocol_version == PROTOCOL_VERSION ==> r is Ok,
            protocol_version != PROTOCOL_VERSION ==> (
                r is Err && r->Err_0 == Exception::BadProtocolVersion
            ),
    {
        if protocol_version == PROTOCOL_VERSION {
            Ok(())
        } else {
            Err(Exception::BadProtocolVersion)
        }
    }

    pub fn get(&self) -> (r: u8)
        ensures
            r == PROTOCOL_VERSION,
    {
        PROTOCOL_VERSION
    }
}

} // verus!
