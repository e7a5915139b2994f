//! Packet shapes shared by client and server, the session key tag, and the
//! error kinds of the protocol layer.

use vstd::prelude::*;

verus! {

/// Wire protocol identifier stamped into every outbound packet.
pub const PROTOCOL_ID: u8 = 8;

/// Wire protocol version stamped into every outbound packet.
pub const PROTOCOL_VERSION: u8 = 1;

/// An opaque session tag chosen once per endpoint.  A peer that observes a
/// key different from the stored one treats the stream as a new session and
/// resets its per-peer state.  The tag is a wall-clock duration since the
/// epoch, split into whole seconds and the nanosecond remainder.
#[derive(Clone, Copy, Debug, PartialEq, Eq, Structural)]
pub struct SessionKey {
    pub secs: u64,
    pub nanos: u64,
}

/// A client-to-server packet carrying one command payload.
#[derive(Clone, Debug)]
pub struct CommandPacket {
    pub protocol_id: u8,
    pub protocol_version: u8,
    pub id: u32,
    pub command: Vec<u8>,
    pub session_key: SessionKey,
}

/// A server-to-client packet carrying a state snapshot together with the
/// missing-command report: `last_received` and a 32-bit bitmap (`sequence`)
/// of the ids immediately preceding it that the server still lacks.
#[derive(Clone, Debug)]
pub struct StatePacket {
    pub protocol_id: u8,
    pub protocol_version: u8,
    pub id: u32,
    pub last_received: u32,
    pub sequence: u32,
    pub state: Vec<u8>,
    pub session_key: SessionKey,
}

/// Error kinds of the protocol layer.  Socket errors belong to the caller
/// that owns the socket and do not appear here.
#[derive(Clone, Copy, Debug, PartialEq, Eq, Structural)]
pub enum Exception {
    /// Different library version on client and server.
    BadProtocolVersion,
    /// The packet does not belong to this protocol.
    NotValidIdError,
    /// Duplicate, too old, or out-of-window packet; it was skipped.
    NotOrderedPacketError,
    /// A byte buffer does not hold a well-formed packet, or a payload does
    /// not fit into one datagram.
    MalformedPacketError,
}


/// Field-wise equality of command packets: the equality an owned copy
/// preserves.
pub open spec fn pkt_eq(a: CommandPacket, b: CommandPacket) -> bool {
    &&& a.protocol_id == b.protocol_id
    &&& a.protocol_version == b.protocol_version
    &&& a.id == b.id
    &&& a.command@ == b.command@
    &&& a.session_key == b.session_key
}

/// An owned copy of a byte buffer.
pub fn copy_bytes(src: &Vec<u8>) -> (r: Vec<u8>)
    ensures
        r@ == src@,
{
    let mut out: Vec<u8> = Vec::new();
    let mut i: usize = 0;
    while i < src.len()
        invariant
            i <= src@.len(),
            out@ == src@.subrange(0, i as int),
        decreases src@.len() - i,
    {
        out.push(src[i]);
        i += 1;
        assert(out@ =~= src@.subrange(0, i as int));
    }
    assert(out@ =~= src@);
    out
}

/// An owned copy of a command packet, equal field by field.
pub fn clone_command(p: &CommandPacket) -> (r: CommandPacket)
    ensures
        pkt_eq(r, *p),
{
    CommandPacket {
        protocol_id: p.protocol_id,
        protocol_version: p.protocol_version,
        id: p.id,
        command: copy_bytes(&p.command),
        session_key: p.session_key,
    }
}

} // verus!
