//! The protocol identifier check: packets from other programs are
//! recognised by their first byte and dropped.

use vstd::prelude::*;
use crate::entities::Exception;
use crate::entities::PROTOCOL_ID;

verus! {

/// Checks and supplies the wire protocol identifier.
pub struct ProtocolChecker;

impl ProtocolChecker {
    /// Accepts exactly the protocol id this library stamps into its own
    /// packets.
    pub fn check(&self, protocol_id: u8) -> (r: Result<(), Exception>)
        ensures
            protocol_id == PROTOCOL_ID ==> r is Ok,
            protocol_id != PROTOCOL_ID ==> (
                r is Err && r->Err_0 == Exception::NotValidIdError
            ),
    {
        if protocol_id == PROTOCOL_ID {
            Ok(())
        } else {
            Err(Exception::NotValidIdError)
        }
    }

    pub fn get(&self) -> (r: u8)
        ensures
            r == PROTOCOL_ID,
    {
        PROTOCOL_ID
    }
}

} // verus!
