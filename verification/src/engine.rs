//! The per-peer reliability engines: the client role, which numbers and
//! caches outgoing commands and answers missing-id reports with
//! retransmissions, and the server role, which arranges incoming
//! commands into in-order batches and stamps state packets with the
//! missing report.

use vstd::prelude::*;
use crate::cache::cache_push;
use crate::cache::range_lookup;
use crate::cache::Cache;
use crate::entities::clone_command;
use crate::entities::pkt_eq;
use crate::entities::CommandPacket;
use crate::entities::Exception;
use crate::entities::StatePacket;
use crate::entities::PROTOCOL_ID;
use crate::entities::PROTOCOL_VERSION;
use crate::id;
use crate::id::add_accepts;
use crate::id::apply_add;
use crate::id::arrange_out;
use crate::id::arrange_step;
use crate::id::bit_set;
use crate::id::empty_model;
use crate::id::report_bit;
use crate::id::Arranger;
use crate::key;
use crate::protocol::ProtocolChecker;
use crate::timer::SleepTimer;
use crate::version::VersionChecker;

verus! {

/// The ids a client reads out of a missing report `(max_id, bits)`,
/// highest first: bit `j` asks for id `max_id - 1 - j`.
pub open spec fn lost_ids_from(max_id: u32, bits: u32, j: int) -> Seq<u32>
    decreases 32 - j,
{
    if j < 0 || j >= 32 || j >= max_id {
        Seq::empty()
    } else {
        let rest = lost_ids_from(max_id, bits, j + 1);
        if bit_set(bits, j) {
            seq![(max_id - 1 - j) as u32] + rest
        } else {
            rest
        }
    }
}

/// The client role: numbers and caches outgoing commands, gates incoming
/// state ids, and answers missing reports with cached retransmissions.
pub struct Client {
    pub protocol_version: VersionChecker,
    pub protocol_id: ProtocolChecker,
    pub id: id::Generator,
    pub cache: Cache,
    pub id_filter: id::Filter,
    pub timer: SleepTimer,
    pub key_generator: key::Generator,
    pub key_filter: key::Filter,
}

impl Client {
    pub open spec fn wf(&self) -> bool {
        self.cache.wf()
    }

    pub fn new() -> (r: Client)
        ensures
            r.wf(),
            r.id.id == 1,
            r.cache.data@ == Seq::<CommandPacket>::empty(),
            r.id_filter.id == 0,
            r.timer.time_millis == 30,
    {
        let key = key::new_key();
        Client {
            protocol_version: VersionChecker,
            protocol_id: ProtocolChecker,
            id: id::Generator::new(1),
            cache: Cache::new(),
            id_filter: id::Filter::new(0),
            timer: SleepTimer::new(30),
            key_filter: key::Filter::new(key),
            key_generator: key::Generator::new(),
        }
    }

    /// Stamps the next outgoing packet: protocol fields, the next id,
    /// and the session key.
    fn create_command(&mut self, command: Vec<u8>) -> (r: CommandPacket)
        ensures
            r.protocol_id == PROTOCOL_ID,
            r.protocol_version == PROTOCOL_VERSION,
            r.id == old(self).id.id,
            r.command@ == command@,
            r.session_key == old(self).key_generator.key,
            final(self).id.id == if old(self).id.id == u32::MAX {
                0u32
            } else {
                (old(self).id.id + 1) as u32
            },
            final(self).cache == old(self).cache,
            final(self).id_filter == old(self).id_filter,
            final(self).timer == old(self).timer,
            final(self).key_generator == old(self).key_generator,
            final(self).key_filter == old(self).key_filter,
    {
        CommandPacket {
            protocol_id: self.protocol_id.get(),
            protocol_version: self.protocol_version.get(),
            id: self.id.generate(),
            command,
            session_key: self.key_generator.generate(),
        }
    }

    /// Builds the next command packet and keeps a copy in the send cache
    /// for retransmission.  The caller owns the pacing sleep; the
    /// engine's `timer` says how long is left of it.
    pub fn send(&mut self, command: Vec<u8>) -> (r: CommandPacket)
        requires
            old(self).wf(),
        ensures
            final(self).wf(),
            r.protocol_id == PROTOCOL_ID,
            r.protocol_version == PROTOCOL_VERSION,
            r.id == old(self).id.id,
            r.command@ == command@,
            r.session_key == old(self).key_generator.key,
            final(self).id.id == if old(self).id.id == u32::MAX {
                0u32
            } else {
                (old(self).id.id + 1) as u32
            },
            final(self).cache.data@.len() == cache_push(old(self).cache.data@, r).len(),
            forall|i: int| 0 <= i < final(self).cache.data@.len()
                ==> pkt_eq(#[trigger] final(self).cache.data@[i],
                    cache_push(old(self).cache.data@, r)[i]),
            final(self).id_filter == old(self).id_filter,
            final(self).timer == old(self).timer,
            final(self).key_generator == old(self).key_generator,
            final(self).key_filter == old(self).key_filter,
    {
        let command = self.create_command(command);
        let copy = clone_command(&command);
        let ghost pre = self.cache.data@;
        self.cache.add(copy);
        proof {
            let with_r = cache_push(pre, command);
            let with_c = cache_push(pre, copy);
            assert(with_r.len() == with_c.len());
            assert forall|i: int| 0 <= i < with_c.len()
                implies pkt_eq(#[trigger] with_c[i], with_r[i]) by {
                let p = pre.push(copy);
                let q = pre.push(command);
                assert(p.len() == q.len());
                if p.len() > crate::cache::CACHE_MAX {
                    let lo = p.len() - crate::cache::CACHE_MAX as int / 2;
                    assert(with_c[i] == p[lo + i] && with_r[i] == q[lo + i]);
                    if lo + i < pre.len() {
                        assert(p[lo + i] == pre[lo + i] && q[lo + i] == pre[lo + i]);
                    }
                } else {
                    if i < pre.len() {
                        assert(with_c[i] == pre[i] && with_r[i] == pre[i]);
                    }
                }
            }
        }
        command
    }

    /// The cached packets a missing report asks for, in report order.
    fn get_lost(&mut self, max_id: u32, sequence: u32) -> (r: Vec<CommandPacket>)
        ensures
            *final(self) == *old(self),
            r@.len() == range_lookup(old(self).cache.data@,
                lost_ids_from(max_id, sequence, 0)).len(),
            forall|i: int| 0 <= i < r@.len()
                ==> pkt_eq(#[trigger] r@[i],
                    range_lookup(old(self).cache.data@, lost_ids_from(max_id, sequence, 0))[i]),
    {
        let mut ids: Vec<u32> = Vec::new();
        let mut j: u32 = 0;
        while j < 32 && j < max_id
            invariant
                j <= 32,
                ids@ + lost_ids_from(max_id, sequence, j as int)
                    == lost_ids_from(max_id, sequence, 0),
            decreases 32 - j,
        {
            let ghost pre = ids@;
            if ((sequence >> j) & 1) == 1 {
                ids.push(max_id - 1 - j);
            }
            proof {
                assert(lost_ids_from(max_id, sequence, j as int)
                    == if bit_set(sequence, j as int) {
                        seq![(max_id - 1 - j) as u32] + lost_ids_from(max_id, sequence, j + 1)
                    } else {
                        lost_ids_from(max_id, sequence, j + 1)
                    });
                if bit_set(sequence, j as int) {
                    assert(ids@ == pre.push((max_id - 1 - j) as u32));
                    assert(pre.push((max_id - 1 - j) as u32)
                        + lost_ids_from(max_id, sequence, j + 1)
                        =~= pre + (seq![(max_id - 1 - j) as u32]
                            + lost_ids_from(max_id, sequence, j + 1)));
                }
            }
            j += 1;
        }
        proof {
            assert(lost_ids_from(max_id, sequence, j as int) == Seq::<u32>::empty());
            assert(ids@ + Seq::<u32>::empty() =~= ids@);
        }
        self.cache.get_range(&ids)
    }

    /// Takes one state packet: checks protocol fields, adopts a new
    /// session key (resetting the id gate), gates the state id, and
    /// returns the state payload together with the cached commands the
    /// report asks to be retransmitted.
    pub fn recv(&mut self, state: StatePacket) -> (r: Result<(Vec<u8>, Vec<CommandPacket>), Exception>)
        requires
            old(self).wf(),
        ensures
            final(self).wf(),
            final(self).cache == old(self).cache,
            final(self).id == old(self).id,
            final(self).timer == old(self).timer,
            final(self).key_generator == old(self).key_generator,
            state.protocol_version != PROTOCOL_VERSION ==> (
                r is Err && r->Err_0 == Exception::BadProtocolVersion
                && *final(self) == *old(self)
            ),
            state.protocol_version == PROTOCOL_VERSION && state.protocol_id != PROTOCOL_ID ==> (
                r is Err && r->Err_0 == Exception::NotValidIdError
                && *final(self) == *old(self)
            ),
            state.protocol_version == PROTOCOL_VERSION && state.protocol_id == PROTOCOL_ID ==> ({
                let gate: u32 = if old(self).key_filter.key == state.session_key {
                    old(self).id_filter.id
                } else {
                    0u32
                };
                &&& final(self).key_filter.key == state.session_key
                &&& if id::Filter::spec_accepts(gate, state.id) {
                    &&& r is Ok
                    &&& final(self).id_filter.id == state.id
                    &&& r->Ok_0.0@ == state.state@
                    &&& r->Ok_0.1@.len() == range_lookup(old(self).cache.data@,
                        lost_ids_from(state.last_received, state.sequence, 0)).len()
                    &&& forall|i: int| 0 <= i < r->Ok_0.1@.len()
                        ==> pkt_eq(#[trigger] r->Ok_0.1@[i],
                            range_lookup(old(self).cache.data@,
                                lost_ids_from(state.last_received, state.sequence, 0))[i])
                } else {
                    &&& r is Err
                    &&& r->Err_0 == Exception::NotOrderedPacketError
                    &&& final(self).id_filter.id == gate
                }
            }),
    {
        match self.protocol_version.check(state.protocol_version) {
            Err(e) => {
                return Err(e);
            },
            Ok(()) => {},
        }
        match self.protocol_id.check(state.protocol_id) {
            Err(e) => {
                return Err(e);
            },
            Ok(()) => {},
        }
        if !self.key_filter.is_valid(state.session_key) {
            self.key_filter = key::Filter::new(state.session_key);
            self.id_filter = id::Filter::new(0);
        }
        match self.id_filter.filter(state.id) {
            Err(e) => {
                return Err(e);
            },
            Ok(()) => {},
        }
        let lost = self.get_lost(state.last_received, state.sequence);
        Ok((state.state, lost))
    }
}

/// The server role for one peer: arranges incoming commands into
/// in-order batches and stamps outgoing state with the missing report.
pub struct Server {
    pub protocol_version: VersionChecker,
    pub protocol_id: ProtocolChecker,
    pub id: id::Generator,
    pub arranger: Arranger,
    pub key_generator: key::Generator,
    pub key_filter: key::Filter,
}

impl Server {
    pub open spec fn wf(&self) -> bool {
        self.arranger.wf()
    }

    pub fn new() -> (r: Server)
        ensures
            r.wf(),
            r.id.id == 1,
            r.arranger.model() == empty_model(),
    {
        let key = key::new_key();
        let r = Server {
            protocol_version: VersionChecker,
            protocol_id: ProtocolChecker,
            id: id::Generator::new(1),
            arranger: Arranger::new(0),
            key_filter: key::Filter::new(key),
            key_generator: key::Generator::new(),
        };
        proof {
            assert(r.arranger.model() =~= empty_model());
        }
        r
    }

    /// Wraps one state snapshot: protocol fields, the next id, the
    /// session key, and the current missing report.
    pub fn send(&mut self, state: Vec<u8>) -> (r: StatePacket)
        requires
            old(self).wf(),
        ensures
            final(self).wf(),
            r.protocol_id == PROTOCOL_ID,
            r.protocol_version == PROTOCOL_VERSION,
            r.id == old(self).id.id,
            r.state@ == state@,
            r.session_key == old(self).key_generator.key,
            r.last_received == old(self).arranger.model().last_received,
            forall|j: int| 0 <= j < 32
                ==> (bit_set(r.sequence, j) <==> report_bit(old(self).arranger.model(), j)),
            final(self).id.id == if old(self).id.id == u32::MAX {
                0u32
            } else {
                (old(self).id.id + 1) as u32
            },
            final(self).arranger == old(self).arranger,
            final(self).key_generator == old(self).key_generator,
            final(self).key_filter == old(self).key_filter,
    {
        let (sequence, last_id) = self.arranger.get_lost();
        StatePacket {
            protocol_id: self.protocol_id.get(),
            protocol_version: self.protocol_version.get(),
            id: self.id.generate(),
            state,
            last_received: last_id,
            sequence,
            session_key: self.key_generator.generate(),
        }
    }

    /// Takes one command packet: checks protocol fields, adopts a new
    /// session key (resetting the arranger), files the command, and
    /// returns the payloads of the in-order batch this releases.
    pub fn recv(&mut self, command: CommandPacket) -> (r: Result<Vec<Vec<u8>>, Exception>)
        requires
            old(self).wf(),
        ensures
            final(self).wf(),
            final(self).id == old(self).id,
            final(self).key_generator == old(self).key_generator,
            command.protocol_version != PROTOCOL_VERSION ==> (
                r is Err && r->Err_0 == Exception::BadProtocolVersion
                && *final(self) == *old(self)
            ),
            command.protocol_version == PROTOCOL_VERSION && command.protocol_id != PROTOCOL_ID ==> (
                r is Err && r->Err_0 == Exception::NotValidIdError
                && *final(self) == *old(self)
            ),
            command.protocol_version == PROTOCOL_VERSION && command.protocol_id == PROTOCOL_ID ==> ({
                let a0 = if old(self).key_filter.key == command.session_key {
                    old(self).arranger.model()
                } else {
                    empty_model()
                };
                &&& final(self).key_filter.key == command.session_key
                &&& if add_accepts(a0, command.id) {
                    &&& r is Ok
                    &&& final(self).arranger.model() == arrange_step(apply_add(a0, command))
                    &&& r->Ok_0@.len() == arrange_out(apply_add(a0, command)).len()
                    &&& forall|i: int| 0 <= i < r->Ok_0@.len()
                        ==> #[trigger] r->Ok_0@[i]@ == arrange_out(apply_add(a0, command))[i].command@
                } else {
                    &&& r is Err
                    &&& r->Err_0 == Exception::NotOrderedPacketError
                    &&& final(self).arranger.model() == a0
                }
            }),
    {
        match self.protocol_version.check(command.protocol_version) {
            Err(e) => {
                return Err(e);
            },
            Ok(()) => {},
        }
        match self.protocol_id.check(command.protocol_id) {
            Err(e) => {
                return Err(e);
            },
            Ok(()) => {},
        }
        if !self.key_filter.is_valid(command.session_key) {
            self.key_filter = key::Filter::new(command.session_key);
            self.arranger = Arranger::new(0);
            proof {
                assert(self.arranger.model() =~= empty_model());
            }
        }
        let ghost a0 = self.arranger.model();
        match self.arranger.add(command) {
            Err(e) => {
                return Err(e);
            },
            Ok(()) => {},
        }
        let ghost a1 = self.arranger.model();
        let mut released = self.arranger.arrange();
        let ghost out = arrange_out(a1);
        let mut payloads: Vec<Vec<u8>> = Vec::new();
        while released.len() > 0
            invariant
                payloads@.len() + released@.len() == out.len(),
                released@ == out.skip(payloads@.len() as int),
                forall|k: int| 0 <= k < payloads@.len()
                    ==> #[trigger] payloads@[k]@ == out[k].command@,
            decreases released@.len(),
        {
            let ghost n = payloads@.len() as int;
            let p = released.remove(0);
            proof {
                assert(p == out.skip(n)[0]);
                assert(out.skip(n)[0] == out[n]);
            }
            payloads.push(p.command);
            proof {
                assert(released@ =~= out.skip(payloads@.len() as int));
            }
        }
        Ok(payloads)
    }
}

} // verus!
