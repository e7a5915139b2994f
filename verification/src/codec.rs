//! Binary codec for the two packet shapes.
//!
//! Every datagram is one encoded packet.  Fields are laid out in a fixed
//! order: `protocol_id`, `protocol_version`, `id` (little-endian `u32`),
//! the session key as two little-endian `u64` fields, the shape-specific
//! fixed fields, and finally the payload prefixed by its little-endian
//! `u64` length.  The decoder checks structure only: unknown protocol ids
//! and versions are decoded as they stand and left to the engine to
//! reject.

use vstd::prelude::*;
use crate::entities::CommandPacket;
use crate::entities::Exception;
use crate::entities::SessionKey;
use crate::entities::StatePacket;

verus! {

/// The largest datagram either endpoint sends; the encoders reject
/// packets whose encoding would be longer.
pub const MAX_DATAGRAM_SIZE: usize = 64_000;

/// Bytes taken by the fields of a command packet before its payload.
pub const COMMAND_HEADER_SIZE: usize = 30;

/// Bytes taken by the fields of a state packet before its payload.
pub const STATE_HEADER_SIZE: usize = 38;

/// The four little-endian bytes of `x`.
pub open spec fn u32_le_bytes(x: u32) -> Seq<u8> {
    seq![
        (x % 256) as u8,
        (x / 256 % 256) as u8,
        (x / 65536 % 256) as u8,
        (x / 16777216 % 256) as u8,
    ]
}

/// The eight little-endian bytes of `x`.
pub open spec fn u64_le_bytes(x: u64) -> Seq<u8> {
    seq![
        (x % 256) as u8,
        (x / 256 % 256) as u8,
        (x / 65536 % 256) as u8,
        (x / 16777216 % 256) as u8,
        (x / 4294967296 % 256) as u8,
        (x / 1099511627776 % 256) as u8,
        (x / 281474976710656 % 256) as u8,
        (x / 72057594037927936 % 256) as u8,
    ]
}

/// The value of four little-endian bytes.
pub open spec fn u32_of_bytes(b0: u8, b1: u8, b2: u8, b3: u8) -> int {
    b0 as int + b1 as int * 256 + b2 as int * 65536 + b3 as int * 16777216
}

/// The value of eight little-endian bytes.
pub open spec fn u64_of_bytes(
    b0: u8, b1: u8, b2: u8, b3: u8, b4: u8, b5: u8, b6: u8, b7: u8,
) -> int {
    b0 as int + b1 as int * 256 + b2 as int * 65536 + b3 as int * 16777216
        + b4 as int * 4294967296 + b5 as int * 1099511627776
        + b6 as int * 281474976710656 + b7 as int * 72057594037927936
}

/// Reading back the little-endian bytes of `x` yields `x`.
pub proof fn lemma_u32_le_round_trip(x: u32)
    ensures
        u32_of_bytes(
            (x % 256) as u8,
            (x / 256 % 256) as u8,
            (x / 65536 % 256) as u8,
            (x / 16777216 % 256) as u8,
        ) == x,
{
    assert(x % 256 + x / 256 % 256 * 256 + x / 65536 % 256 * 65536
        + x / 16777216 % 256 * 16777216 == x) by (bit_vector);
}

/// Reading back the little-endian bytes of `x` yields `x`.
pub proof fn lemma_u64_le_round_trip(x: u64)
    ensures
        u64_of_bytes(
            (x % 256) as u8,
            (x / 256 % 256) as u8,
            (x / 65536 % 256) as u8,
            (x / 16777216 % 256) as u8,
            (x / 4294967296 % 256) as u8,
            (x / 1099511627776 % 256) as u8,
            (x / 281474976710656 % 256) as u8,
            (x / 72057594037927936 % 256) as u8,
        ) == x,
{
    assert(x % 256 + x / 256 % 256 * 256 + x / 65536 % 256 * 65536
        + x / 16777216 % 256 * 16777216 + x / 4294967296 % 256 * 4294967296
        + x / 1099511627776 % 256 * 1099511627776
        + x / 281474976710656 % 256 * 281474976710656
        + x / 72057594037927936 % 256 * 72057594037927936 == x) by (bit_vector);
}

/// The little-endian bytes of the value of four bytes are those bytes.
pub proof fn lemma_u32_le_pack(b0: u8, b1: u8, b2: u8, b3: u8)
    ensures
        u32_le_bytes(u32_of_bytes(b0, b1, b2, b3) as u32) == seq![b0, b1, b2, b3],
{
    let x = u32_of_bytes(b0, b1, b2, b3) as u32;
    let c0 = b0 as u32;
    let c1 = b1 as u32;
    let c2 = b2 as u32;
    let c3 = b3 as u32;
    assert(x % 256 == c0 && x / 256 % 256 == c1 && x / 65536 % 256 == c2
        && x / 16777216 % 256 == c3) by (bit_vector)
        requires
            x == c0 + c1 * 256 + c2 * 65536 + c3 * 16777216,
            c0 < 256 && c1 < 256 && c2 < 256 && c3 < 256,
    ;
    assert(u32_le_bytes(x) =~= seq![b0, b1, b2, b3]);
}

/// The little-endian bytes of the value of eight bytes are those bytes.
pub proof fn lemma_u64_le_pack(b0: u8, b1: u8, b2: u8, b3: u8, b4: u8, b5: u8, b6: u8, b7: u8)
    ensures
        u64_le_bytes(u64_of_bytes(b0, b1, b2, b3, b4, b5, b6, b7) as u64)
            == seq![b0, b1, b2, b3, b4, b5, b6, b7],
{
    let x = u64_of_bytes(b0, b1, b2, b3, b4, b5, b6, b7) as u64;
    let c0 = b0 as u64;
    let c1 = b1 as u64;
    let c2 = b2 as u64;
    let c3 = b3 as u64;
    let c4 = b4 as u64;
    let c5 = b5 as u64;
    let c6 = b6 as u64;
    let c7 = b7 as u64;
    assert(x % 256 == c0 && x / 256 % 256 == c1 && x / 65536 % 256 == c2
        && x / 16777216 % 256 == c3 && x / 4294967296 % 256 == c4
        && x / 1099511627776 % 256 == c5 && x / 281474976710656 % 256 == c6
        && x / 72057594037927936 % 256 == c7) by (bit_vector)
        requires
            x == c0 + c1 * 256 + c2 * 65536 + c3 * 16777216 + c4 * 4294967296
                + c5 * 1099511627776 + c6 * 281474976710656
                + c7 * 72057594037927936,
            c0 < 256 && c1 < 256 && c2 < 256 && c3 < 256,
            c4 < 256 && c5 < 256 && c6 < 256 && c7 < 256,
    ;
    assert(u64_le_bytes(x) =~= seq![b0, b1, b2, b3, b4, b5, b6, b7]);
}

/// The encoding of a command packet.
pub open spec fn spec_command_bytes(p: CommandPacket) -> Seq<u8> {
    seq![p.protocol_id, p.protocol_version] + u32_le_bytes(p.id)
        + u64_le_bytes(p.session_key.secs) + u64_le_bytes(p.session_key.nanos)
        + u64_le_bytes(p.command@.len() as u64) + p.command@
}

/// The encoding of a state packet.
pub open spec fn spec_state_bytes(p: StatePacket) -> Seq<u8> {
    seq![p.protocol_id, p.protocol_version] + u32_le_bytes(p.id)
        + u64_le_bytes(p.session_key.secs) + u64_le_bytes(p.session_key.nanos)
        + u32_le_bytes(p.last_received) + u32_le_bytes(p.sequence)
        + u64_le_bytes(p.state@.len() as u64) + p.state@
}

/// Whether `s` is structurally a command packet: long enough for the
/// fixed fields, and its length field matching the payload exactly.
pub open spec fn command_frame_ok(s: Seq<u8>) -> bool {
    s.len() >= COMMAND_HEADER_SIZE
        && u64_of_bytes(s[22], s[23], s[24], s[25], s[26], s[27], s[28], s[29])
            == s.len() - COMMAND_HEADER_SIZE
}

/// Whether `s` is structurally a state packet.
pub open spec fn state_frame_ok(s: Seq<u8>) -> bool {
    s.len() >= STATE_HEADER_SIZE
        && u64_of_bytes(s[30], s[31], s[32], s[33], s[34], s[35], s[36], s[37])
            == s.len() - STATE_HEADER_SIZE
}

/// Appends the four little-endian bytes of `x`.
fn push_u32_le(out: &mut Vec<u8>, x: u32)
    ensures
        final(out)@ == old(out)@ + u32_le_bytes(x),
{
    out.push((x % 256) as u8);
    out.push((x / 256 % 256) as u8);
    out.push((x / 65536 % 256) as u8);
    out.push((x / 16777216 % 256) as u8);
    assert(out@ =~= old(out)@ + u32_le_bytes(x));
}

/// Appends the eight little-endian bytes of `x`.
fn push_u64_le(out: &mut Vec<u8>, x: u64)
    ensures
        final(out)@ == old(out)@ + u64_le_bytes(x),
{
    out.push((x % 256) as u8);
    out.push((x / 256 % 256) as u8);
    out.push((x / 65536 % 256) as u8);
    out.push((x / 16777216 % 256) as u8);
    out.push((x / 4294967296 % 256) as u8);
    out.push((x / 1099511627776 % 256) as u8);
    out.push((x / 281474976710656 % 256) as u8);
    out.push((x / 72057594037927936 % 256) as u8);
    assert(out@ =~= old(out)@ + u64_le_bytes(x));
}

/// Appends a copy of `src`.
fn push_bytes(out: &mut Vec<u8>, src: &Vec<u8>)
    ensures
        final(out)@ == old(out)@ + src@,
{
    let mut i: usize = 0;
    while i < src.len()
        invariant
            i <= src@.len(),
            out@ == old(out)@ + src@.subrange(0, i as int),
        decreases src@.len() - i,
    {
        out.push(src[i]);
        i += 1;
        assert(out@ =~= old(out)@ + src@.subrange(0, i as int));
    }
    assert(out@ =~= old(out)@ + src@);
}

/// Reads the little-endian `u32` at `off`.
fn read_u32_at(bytes: &Vec<u8>, off: usize) -> (r: u32)
    requires
        off + 4 <= bytes@.len(),
    ensures
        r as int == u32_of_bytes(bytes@[off as int], bytes@[off + 1], bytes@[off + 2], bytes@[off + 3]),
{
    let _n: usize = bytes.len();
    bytes[off] as u32 + bytes[off + 1] as u32 * 256 + bytes[off + 2] as u32 * 65536
        + bytes[off + 3] as u32 * 16777216
}

/// Reads the little-endian `u64` at `off`.
fn read_u64_at(bytes: &Vec<u8>, off: usize) -> (r: u64)
    requires
        off + 8 <= bytes@.len(),
    ensures
        r as int == u64_of_bytes(
            bytes@[off as int], bytes@[off + 1], bytes@[off + 2], bytes@[off + 3],
            bytes@[off + 4], bytes@[off + 5], bytes@[off + 6], bytes@[off + 7],
        ),
{
    let _n: usize = bytes.len();
    bytes[off] as u64 + bytes[off + 1] as u64 * 256 + bytes[off + 2] as u64 * 65536
        + bytes[off + 3] as u64 * 16777216 + bytes[off + 4] as u64 * 4294967296
        + bytes[off + 5] as u64 * 1099511627776
        + bytes[off + 6] as u64 * 281474976710656
        + bytes[off + 7] as u64 * 72057594037927936
}

/// Encodes a command packet, rejecting payloads that cannot fit into one
/// datagram.
pub fn encode_command(p: &CommandPacket) -> (r: Result<Vec<u8>, Exception>)
    ensures
        p.command@.len() + COMMAND_HEADER_SIZE <= MAX_DATAGRAM_SIZE ==> (
            r is Ok && r->Ok_0@ == spec_command_bytes(*p)
        ),
        p.command@.len() + COMMAND_HEADER_SIZE > MAX_DATAGRAM_SIZE ==> (
            r is Err && r->Err_0 == Exception::MalformedPacketError
        ),
{
    if p.command.len() > MAX_DATAGRAM_SIZE - COMMAND_HEADER_SIZE {
        return Err(Exception::MalformedPacketError);
    }
    let mut out: Vec<u8> = Vec::new();
    out.push(p.protocol_id);
    out.push(p.protocol_version);
    assert(out@ =~= seq![p.protocol_id, p.protocol_version]);
    push_u32_le(&mut out, p.id);
    push_u64_le(&mut out, p.session_key.secs);
    push_u64_le(&mut out, p.session_key.nanos);
    push_u64_le(&mut out, p.command.len() as u64);
    push_bytes(&mut out, &p.command);
    Ok(out)
}

/// Encodes a state packet, rejecting payloads that cannot fit into one
/// datagram.
pub fn encode_state(p: &StatePacket) -> (r: Result<Vec<u8>, Exception>)
    ensures
        p.state@.len() + STATE_HEADER_SIZE <= MAX_DATAGRAM_SIZE ==> (
            r is Ok && r->Ok_0@ == spec_state_bytes(*p)
        ),
        p.state@.len() + STATE_HEADER_SIZE > MAX_DATAGRAM_SIZE ==> (
            r is Err && r->Err_0 == Exception::MalformedPacketError
        ),
{
    if p.state.len() > MAX_DATAGRAM_SIZE - STATE_HEADER_SIZE {
        return Err(Exception::MalformedPacketError);
    }
    let mut out: Vec<u8> = Vec::new();
    out.push(p.protocol_id);
    out.push(p.protocol_version);
    assert(out@ =~= seq![p.protocol_id, p.protocol_version]);
    push_u32_le(&mut out, p.id);
    push_u64_le(&mut out, p.session_key.secs);
    push_u64_le(&mut out, p.session_key.nanos);
    push_u32_le(&mut out, p.last_received);
    push_u32_le(&mut out, p.sequence);
    push_u64_le(&mut out, p.state.len() as u64);
    push_bytes(&mut out, &p.state);
    Ok(out)
}

/// Copies `bytes[from..]` into a fresh vector.
fn tail_bytes(bytes: &Vec<u8>, from: usize) -> (r: Vec<u8>)
    requires
        from <= bytes@.len(),
    ensures
        r@ == bytes@.subrange(from as int, bytes@.len() as int),
{
    let mut out: Vec<u8> = Vec::new();
    let mut i: usize = from;
    while i < bytes.len()
        invariant
            from <= i <= bytes@.len(),
            out@ == bytes@.subrange(from as int, i as int),
        decreases bytes@.len() - i,
    {
        out.push(bytes[i]);
        i += 1;
        assert(out@ =~= bytes@.subrange(from as int, i as int));
    }
    out
}

/// Decodes a command packet.  The structure alone is checked: any
/// protocol id and version decode as they stand, and rejecting them is
/// the engine's task.
#[verifier::rlimit(50)]
pub fn decode_command(bytes: &Vec<u8>) -> (r: Result<CommandPacket, Exception>)
    ensures
        r is Ok <==> command_frame_ok(bytes@),
        r matches Ok(p) ==> bytes@ == spec_command_bytes(p),
        r is Err ==> r->Err_0 == Exception::MalformedPacketError,
{
    let n: usize = bytes.len();
    if n < COMMAND_HEADER_SIZE {
        return Err(Exception::MalformedPacketError);
    }
    let len_field: u64 = read_u64_at(bytes, 22);
    if len_field != (n - COMMAND_HEADER_SIZE) as u64 {
        return Err(Exception::MalformedPacketError);
    }
    let id: u32 = read_u32_at(bytes, 2);
    let secs: u64 = read_u64_at(bytes, 6);
    let nanos: u64 = read_u64_at(bytes, 14);
    let command = tail_bytes(bytes, COMMAND_HEADER_SIZE);
    let p = CommandPacket {
        protocol_id: bytes[0],
        protocol_version: bytes[1],
        id,
        command,
        session_key: SessionKey { secs, nanos },
    };
    proof {
        lemma_u32_le_pack(bytes@[2], bytes@[3], bytes@[4], bytes@[5]);
        lemma_u64_le_pack(
            bytes@[6], bytes@[7], bytes@[8], bytes@[9],
            bytes@[10], bytes@[11], bytes@[12], bytes@[13],
        );
        lemma_u64_le_pack(
            bytes@[14], bytes@[15], bytes@[16], bytes@[17],
            bytes@[18], bytes@[19], bytes@[20], bytes@[21],
        );
        lemma_u64_le_pack(
            bytes@[22], bytes@[23], bytes@[24], bytes@[25],
            bytes@[26], bytes@[27], bytes@[28], bytes@[29],
        );
        assert(spec_command_bytes(p) =~= bytes@);
    }
    Ok(p)
}

/// Decodes a state packet; as with commands, structure alone is checked.
#[verifier::rlimit(50)]
pub fn decode_state(bytes: &Vec<u8>) -> (r: Result<StatePacket, Exception>)
    ensures
        r is Ok <==> state_frame_ok(bytes@),
        r matches Ok(p) ==> bytes@ == spec_state_bytes(p),
        r is Err ==> r->Err_0 == Exception::MalformedPacketError,
{
    let n: usize = bytes.len();
    if n < STATE_HEADER_SIZE {
        return Err(Exception::MalformedPacketError);
    }
    let len_field: u64 = read_u64_at(bytes, 30);
    if len_field != (n - STATE_HEADER_SIZE) as u64 {
        return Err(Exception::MalformedPacketError);
    }
    let id: u32 = read_u32_at(bytes, 2);
    let secs: u64 = read_u64_at(bytes, 6);
    let nanos: u64 = read_u64_at(bytes, 14);
    let last_received: u32 = read_u32_at(bytes, 22);
    let sequence: u32 = read_u32_at(bytes, 26);
    let state = tail_bytes(bytes, STATE_HEADER_SIZE);
    let p = StatePacket {
        protocol_id: bytes[0],
        protocol_version: bytes[1],
        id,
        last_received,
        sequence,
        state,
        session_key: SessionKey { secs, nanos },
    };
    proof {
        lemma_u32_le_pack(bytes@[2], bytes@[3], bytes@[4], bytes@[5]);
        lemma_u64_le_pack(
            bytes@[6], bytes@[7], bytes@[8], bytes@[9],
            bytes@[10], bytes@[11], bytes@[12], bytes@[13],
        );
        lemma_u64_le_pack(
            bytes@[14], bytes@[15], bytes@[16], bytes@[17],
            bytes@[18], bytes@[19], bytes@[20], bytes@[21],
        );
        lemma_u32_le_pack(bytes@[22], bytes@[23], bytes@[24], bytes@[25]);
        lemma_u32_le_pack(bytes@[26], bytes@[27], bytes@[28], bytes@[29]);
        lemma_u64_le_pack(
            bytes@[30], bytes@[31], bytes@[32], bytes@[33],
            bytes@[34], bytes@[35], bytes@[36], bytes@[37],
        );
        assert(spec_state_bytes(p) =~= bytes@);
    }
    Ok(p)
}

/// Where each field of a command packet sits inside its encoding.
pub proof fn lemma_command_bytes_parts(p: CommandPacket)
    ensures
        spec_command_bytes(p).len() == COMMAND_HEADER_SIZE + p.command@.len(),
        spec_command_bytes(p)[0] == p.protocol_id,
        spec_command_bytes(p)[1] == p.protocol_version,
        spec_command_bytes(p).subrange(2, 6) == u32_le_bytes(p.id),
        spec_command_bytes(p).subrange(6, 14) == u64_le_bytes(p.session_key.secs),
        spec_command_bytes(p).subrange(14, 22) == u64_le_bytes(p.session_key.nanos),
        spec_command_bytes(p).subrange(22, 30) == u64_le_bytes(p.command@.len() as u64),
        spec_command_bytes(p).subrange(30, spec_command_bytes(p).len() as int) == p.command@,
{
    let s = spec_command_bytes(p);
    assert(s.subrange(2, 6) =~= u32_le_bytes(p.id));
    assert(s.subrange(6, 14) =~= u64_le_bytes(p.session_key.secs));
    assert(s.subrange(14, 22) =~= u64_le_bytes(p.session_key.nanos));
    assert(s.subrange(22, 30) =~= u64_le_bytes(p.command@.len() as u64));
    assert(s.subrange(30, s.len() as int) =~= p.command@);
}

/// Where each field of a state packet sits inside its encoding.
pub proof fn lemma_state_bytes_parts(p: StatePacket)
    ensures
        spec_state_bytes(p).len() == STATE_HEADER_SIZE + p.state@.len(),
        spec_state_bytes(p)[0] == p.protocol_id,
        spec_state_bytes(p)[1] == p.protocol_version,
        spec_state_bytes(p).subrange(2, 6) == u32_le_bytes(p.id),
        spec_state_bytes(p).subrange(6, 14) == u64_le_bytes(p.session_key.secs),
        spec_state_bytes(p).subrange(14, 22) == u64_le_bytes(p.session_key.nanos),
        spec_state_bytes(p).subrange(22, 26) == u32_le_bytes(p.last_received),
        spec_state_bytes(p).subrange(26, 30) == u32_le_bytes(p.sequence),
        spec_state_bytes(p).subrange(30, 38) == u64_le_bytes(p.state@.len() as u64),
        spec_state_bytes(p).subrange(38, spec_state_bytes(p).len() as int) == p.state@,
{
    let s = spec_state_bytes(p);
    assert(s.subrange(2, 6) =~= u32_le_bytes(p.id));
    assert(s.subrange(6, 14) =~= u64_le_bytes(p.session_key.secs));
    assert(s.subrange(14, 22) =~= u64_le_bytes(p.session_key.nanos));
    assert(s.subrange(22, 26) =~= u32_le_bytes(p.last_received));
    assert(s.subrange(26, 30) =~= u32_le_bytes(p.sequence));
    assert(s.subrange(30, 38) =~= u64_le_bytes(p.state@.len() as u64));
    assert(s.subrange(38, s.len() as int) =~= p.state@);
}

/// The command encoding always satisfies its own frame check, so a
/// decoder fed an encoder's output succeeds: one half of the round trip.
pub proof fn lemma_command_frame_ok(p: CommandPacket)
    requires
        p.command@.len() <= u64::MAX,
    ensures
        command_frame_ok(spec_command_bytes(p)),
{
    let s = spec_command_bytes(p);
    let len = p.command@.len() as u64;
    lemma_command_bytes_parts(p);
    assert(forall|k: int| 0 <= k < 8 ==> s[22 + k] == u64_le_bytes(len)[k]);
    lemma_u64_le_round_trip(len);
}

/// The state encoding always satisfies its own frame check.
pub proof fn lemma_state_frame_ok(p: StatePacket)
    requires
        p.state@.len() <= u64::MAX,
    ensures
        state_frame_ok(spec_state_bytes(p)),
{
    let s = spec_state_bytes(p);
    let len = p.state@.len() as u64;
    lemma_state_bytes_parts(p);
    assert(forall|k: int| 0 <= k < 8 ==> s[30 + k] == u64_le_bytes(len)[k]);
    lemma_u64_le_round_trip(len);
}

/// Four little-endian bytes determine their value.
pub proof fn lemma_u32_le_injective(a: u32, b: u32)
    requires
        u32_le_bytes(a) == u32_le_bytes(b),
    ensures
        a == b,
{
    lemma_u32_le_round_trip(a);
    lemma_u32_le_round_trip(b);
    let s = u32_le_bytes(a);
    assert(u32_of_bytes(s[0], s[1], s[2], s[3]) == a);
    assert(u32_of_bytes(s[0], s[1], s[2], s[3]) == b);
}

/// Eight little-endian bytes determine their value.
pub proof fn lemma_u64_le_injective(a: u64, b: u64)
    requires
        u64_le_bytes(a) == u64_le_bytes(b),
    ensures
        a == b,
{
    lemma_u64_le_round_trip(a);
    lemma_u64_le_round_trip(b);
    let s = u64_le_bytes(a);
    assert(u64_of_bytes(s[0], s[1], s[2], s[3], s[4], s[5], s[6], s[7]) == a);
    assert(u64_of_bytes(s[0], s[1], s[2], s[3], s[4], s[5], s[6], s[7]) == b);
}

/// Two command packets with the same encoding agree field by field: the
/// other half of the round trip, since decoding an encoding can only
/// recover the packet that was encoded.
pub proof fn lemma_command_codec_injective(p: CommandPacket, q: CommandPacket)
    requires
        spec_command_bytes(p) == spec_command_bytes(q),
    ensures
        p.protocol_id == q.protocol_id,
        p.protocol_version == q.protocol_version,
        p.id == q.id,
        p.session_key == q.session_key,
        p.command@ == q.command@,
{
    lemma_command_bytes_parts(p);
    lemma_command_bytes_parts(q);
    lemma_u32_le_injective(p.id, q.id);
    lemma_u64_le_injective(p.session_key.secs, q.session_key.secs);
    lemma_u64_le_injective(p.session_key.nanos, q.session_key.nanos);
}

/// Two state packets with the same encoding agree field by field.
pub proof fn lemma_state_codec_injective(p: StatePacket, q: StatePacket)
    requires
        spec_state_bytes(p) == spec_state_bytes(q),
    ensures
        p.protocol_id == q.protocol_id,
        p.protocol_version == q.protocol_version,
        p.id == q.id,
        p.last_received == q.last_received,
        p.sequence == q.sequence,
        p.session_key == q.session_key,
        p.state@ == q.state@,
{
    lemma_state_bytes_parts(p);
    lemma_state_bytes_parts(q);
    lemma_u32_le_injective(p.id, q.id);
    lemma_u32_le_injective(p.last_received, q.last_received);
    lemma_u32_le_injective(p.sequence, q.sequence);
    lemma_u64_le_injective(p.session_key.secs, q.session_key.secs);
    lemma_u64_le_injective(p.session_key.nanos, q.session_key.nanos);
}

} // verus!
