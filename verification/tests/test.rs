use std::ops::Add;
use std::ops::Mul;
use victorem::cache::Cache;
use victorem::cache::CACHE_MAX;
use victorem::codec::decode_command;
use victorem::codec::decode_state;
use victorem::codec::encode_command;
use victorem::codec::encode_state;
use victorem::codec::MAX_DATAGRAM_SIZE;
use victorem::id;
use victorem::key;
use victorem::timer::ElapsedTimer;
use victorem::timer::SleepTimer;
use victorem::timer::WaitTimer;
use victorem::Client;
use victorem::CommandPacket;
use victorem::Exception;
use victorem::Server;
use victorem::SessionKey;
use victorem::StatePacket;

fn test_key() -> SessionKey {
    SessionKey { secs: 42, nanos: 7 }
}

fn command(id: u32, payload: Vec<u8>, session_key: SessionKey) -> CommandPacket {
    CommandPacket {
        protocol_id: 8,
        protocol_version: 1,
        id,
        command: payload,
        session_key,
    }
}

fn state(id: u32, last_received: u32, sequence: u32, payload: Vec<u8>, session_key: SessionKey) -> StatePacket {
    StatePacket {
        protocol_id: 8,
        protocol_version: 1,
        id,
        last_received,
        sequence,
        state: payload,
        session_key,
    }
}

#[test]
fn client_should_recv_ordered_packets() {
    let mut client = Client::new();
    let mut server = Server::new();
    let packet1 = server.send(vec![1]);
    let packet2 = server.send(vec![2]);
    let packet3 = server.send(vec![3]);
    let r_packet1 = client.recv(packet1);
    let r_packet3 = client.recv(packet3);
    let r_packet2 = client.recv(packet2);
    assert!({
        match r_packet1 {
            Err(_) => false,
            Ok((v, _)) => v == vec![1],
        }
    });

    assert!({
        match r_packet3 {
            Err(_) => false,
            Ok((v, _)) => v == vec![3],
        }
    });

    assert!({
        match r_packet2 {
            Err(Exception::NotOrderedPacketError) => true,
            _ => false,
        }
    });
}

#[test]
fn server_should_recv_ordered_and_reliable_packets() {
    let mut client = Client::new();
    let mut server = Server::new();
    let command1 = client.send(vec![1]);
    let command2 = client.send(vec![2]);
    let command3 = client.send(vec![3]);
    assert_eq!(3, command3.id);
    let r1 = server.recv(command1);
    let r3 = server.recv(command3);
    assert!({
        match r1 {
            Err(_) => false,
            Ok(v) => v.contains(&vec![1]),
        }
    });
    assert!({
        match r3 {
            Err(_) => false,
            Ok(v) => v.is_empty(),
        }
    });
    let state1 = server.send(vec![4]);
    assert_eq!(3, state1.last_received);
    assert_eq!(1, state1.sequence);
    let (_b, commands) = client.recv(state1).unwrap();

    let r2 = server.recv(commands.first().unwrap().to_owned());
    assert!({
        match r2 {
            Err(_) => false,
            Ok(v) => {
                v.len() == 2 && v.contains(&vec![2]) && v.contains(&vec![3]) && v[0] == vec![2]
            },
        }
    });
}

#[test]
fn ordered_commands_are_delivered_one_by_one() {
    let mut client = Client::new();
    let mut server = Server::new();
    for i in 1u8..=3 {
        let c = client.send(vec![i]);
        let batch = server.recv(c).unwrap();
        assert_eq!(vec![vec![i]], batch);
    }
}

#[test]
fn command_codec_round_trip() {
    let p = command(77, vec![1, 2, 3, 250], test_key());
    let bytes = encode_command(&p).unwrap();
    let q = decode_command(&bytes).unwrap();
    assert_eq!(p.protocol_id, q.protocol_id);
    assert_eq!(p.protocol_version, q.protocol_version);
    assert_eq!(p.id, q.id);
    assert_eq!(p.command, q.command);
    assert_eq!(p.session_key, q.session_key);
}

#[test]
fn state_codec_round_trip() {
    let p = state(9000, 8999, 0b101, vec![9, 8, 7], SessionKey { secs: 1, nanos: 999_999_999 });
    let bytes = encode_state(&p).unwrap();
    let q = decode_state(&bytes).unwrap();
    assert_eq!(p.protocol_id, q.protocol_id);
    assert_eq!(p.protocol_version, q.protocol_version);
    assert_eq!(p.id, q.id);
    assert_eq!(p.last_received, q.last_received);
    assert_eq!(p.sequence, q.sequence);
    assert_eq!(p.state, q.state);
    assert_eq!(p.session_key, q.session_key);
}

#[test]
fn command_wire_layout_is_little_endian() {
    let p = command(1, vec![0xAB], SessionKey { secs: 2, nanos: 3 });
    let bytes = encode_command(&p).unwrap();
    let expected: Vec<u8> = vec![
        8, 1, // protocol id and version
        1, 0, 0, 0, // id
        2, 0, 0, 0, 0, 0, 0, 0, // key seconds
        3, 0, 0, 0, 0, 0, 0, 0, // key nanoseconds
        1, 0, 0, 0, 0, 0, 0, 0, // payload length
        0xAB,
    ];
    assert_eq!(expected, bytes);
}

#[test]
fn decoder_rejects_truncation_and_trailing_bytes() {
    let p = command(5, vec![10, 20], test_key());
    let bytes = encode_command(&p).unwrap();
    let mut truncated = bytes.clone();
    truncated.pop();
    assert!(matches!(
        decode_command(&truncated),
        Err(Exception::MalformedPacketError)
    ));
    let mut padded = bytes.clone();
    padded.push(0);
    assert!(matches!(
        decode_command(&padded),
        Err(Exception::MalformedPacketError)
    ));
    let empty: Vec<u8> = Vec::new();
    assert!(matches!(
        decode_command(&empty),
        Err(Exception::MalformedPacketError)
    ));
}

#[test]
fn encoder_rejects_oversized_payloads() {
    let p = command(1, vec![0; MAX_DATAGRAM_SIZE], test_key());
    assert!(matches!(
        encode_command(&p),
        Err(Exception::MalformedPacketError)
    ));
    let s = state(1, 0, 0, vec![0; MAX_DATAGRAM_SIZE], test_key());
    assert!(matches!(encode_state(&s), Err(Exception::MalformedPacketError)));
}

#[test]
fn decoder_accepts_foreign_protocol_but_engine_rejects() {
    let mut p = command(1, vec![1], test_key());
    p.protocol_id = 9;
    let bytes = encode_command(&p).unwrap();
    let q = decode_command(&bytes).unwrap();
    assert_eq!(9, q.protocol_id);
    let mut server = Server::new();
    assert!(matches!(server.recv(q), Err(Exception::NotValidIdError)));

    let mut v = command(1, vec![1], test_key());
    v.protocol_version = 2;
    assert!(matches!(
        server.recv(v),
        Err(Exception::BadProtocolVersion)
    ));
}

#[test]
fn arranger_releases_in_order() {
    let mut a = id::Arranger::new(0);
    let k = test_key();
    a.add(command(2, vec![2], k)).unwrap();
    assert!(a.arrange().is_empty());
    a.add(command(3, vec![3], k)).unwrap();
    assert!(a.arrange().is_empty());
    a.add(command(1, vec![1], k)).unwrap();
    let out = a.arrange();
    let ids: Vec<u32> = out.iter().map(|p| p.id).collect();
    assert_eq!(vec![1, 2, 3], ids);
}

#[test]
fn arranger_resets_on_large_jump() {
    let mut a = id::Arranger::new(0);
    let k = test_key();
    a.add(command(1, vec![1], k)).unwrap();
    let first = a.arrange();
    assert_eq!(1, first.len());
    // one past the reset threshold relative to the last received id
    a.add(command(34, vec![34], k)).unwrap();
    let out = a.arrange();
    assert_eq!(1, out.len());
    assert_eq!(34, out[0].id);
}

#[test]
fn arranger_rejects_old_and_duplicate_ids() {
    let mut a = id::Arranger::new(0);
    let k = test_key();
    a.add(command(1, vec![1], k)).unwrap();
    assert_eq!(1, a.arrange().len());
    a.add(command(33, vec![2], k)).unwrap();
    a.add(command(65, vec![3], k)).unwrap();
    // one below the report window: 32 + 32 < 65
    assert!(matches!(
        a.add(command(32, vec![4], k)),
        Err(Exception::NotOrderedPacketError)
    ));
    // inside the window is fine
    a.add(command(40, vec![5], k)).unwrap();
    // a duplicate is dropped
    assert!(matches!(
        a.add(command(40, vec![6], k)),
        Err(Exception::NotOrderedPacketError)
    ));
}

#[test]
fn missing_report_marks_unreceived_ids_only() {
    let mut a = id::Arranger::new(0);
    let k = test_key();
    a.add(command(1, vec![1], k)).unwrap();
    let released = a.arrange();
    assert_eq!(1, released.len());
    a.add(command(3, vec![3], k)).unwrap();
    a.arrange();
    // id 2 is missing; id 1 was already released, id 3 is pending
    let (bits, last_received) = a.get_lost();
    assert_eq!(3, last_received);
    assert_eq!(0b01, bits);

    a.add(command(6, vec![6], k)).unwrap();
    a.arrange();
    // ids 2, 4 and 5 are missing: bits 0, 1 and 3 below last_received 6
    let (bits, last_received) = a.get_lost();
    assert_eq!(6, last_received);
    assert_eq!(0b1011, bits);
}

#[test]
fn arranger_buffers_stay_bounded_under_overflow() {
    let mut a = id::Arranger::new(0);
    let k = test_key();
    // ids spaced one window apart, starting at 2 so nothing is released
    for i in 0u32..129 {
        a.add(command(2 + 32 * i, vec![1], k)).unwrap();
        assert!(a.packets.len() <= 128);
        assert!(a.received.len() <= 128);
    }
    // the overflowing add dropped the lower half of the pending buffer
    assert_eq!(65, a.packets.len());
    assert_eq!(65, a.received.len());
    assert_eq!(2 + 32 * 64, a.packets[0].id);
    assert_eq!(2 + 32 * 64 - 1, a.last_valid_packet_id);
}

#[test]
fn fresh_arranger_reports_nothing() {
    let a = id::Arranger::new(0);
    let (bits, last_received) = a.get_lost();
    assert_eq!(0, bits);
    assert_eq!(0, last_received);
}

#[test]
fn arranger_seeded_with_mark_waits_for_its_successor() {
    let mut a = id::Arranger::new(5);
    assert!(a.arrange().is_empty());
    let (bits, last_received) = a.get_lost();
    assert_eq!(0, bits);
    assert_eq!(5, last_received);
    let k = test_key();
    assert!(matches!(
        a.add(command(5, vec![5], k)),
        Err(Exception::NotOrderedPacketError)
    ));
    a.add(command(6, vec![6], k)).unwrap();
    let out = a.arrange();
    assert_eq!(1, out.len());
    assert_eq!(6, out[0].id);
}

#[test]
fn id_generator_counts_and_wraps() {
    let mut g = id::Generator::new(1);
    assert_eq!(1, g.generate());
    assert_eq!(2, g.generate());
    let mut w = id::Generator::new(u32::MAX);
    assert_eq!(u32::MAX, w.generate());
    assert_eq!(0, w.generate());
}

#[test]
fn id_filter_accepts_forward_and_far_back_ids() {
    let mut f = id::Filter::new(0);
    f.filter(1).unwrap();
    assert!(matches!(f.filter(1), Err(Exception::NotOrderedPacketError)));
    let mut g = id::Filter::new(100);
    // far behind the last id: a resynchronisation
    g.filter(50).unwrap();
    assert!(matches!(g.filter(49), Err(Exception::NotOrderedPacketError)));
}

#[test]
fn cache_compacts_to_newest_half() {
    let mut cache = Cache::new();
    let k = test_key();
    for i in 1u32..=(CACHE_MAX as u32 + 1) {
        cache.add(command(i, vec![i as u8], k));
    }
    assert_eq!(CACHE_MAX / 2, cache.data.len());
    assert_eq!(102, cache.data[0].id);
    assert_eq!(201, cache.data[cache.data.len() - 1].id);
    assert_eq!(201, cache.get_max_id());
    assert!(cache.get(50).is_none());
    let found = cache.get(150).unwrap();
    assert_eq!(150, found.id);
    assert_eq!(vec![150u8], found.command);
}

#[test]
fn cache_get_range_keeps_request_order_and_drops_misses() {
    let mut cache = Cache::new();
    let k = test_key();
    for i in 1u32..=5 {
        cache.add(command(i, vec![i as u8], k));
    }
    let got = cache.get_range(&vec![4, 9, 2]);
    let ids: Vec<u32> = got.iter().map(|p| p.id).collect();
    assert_eq!(vec![4, 2], ids);
}

#[test]
fn client_send_stamps_protocol_fields() {
    let mut client = Client::new();
    let c1 = client.send(vec![7]);
    assert_eq!(8, c1.protocol_id);
    assert_eq!(1, c1.protocol_version);
    assert_eq!(1, c1.id);
    assert_eq!(vec![7], c1.command);
    let c2 = client.send(vec![8]);
    assert_eq!(2, c2.id);
    assert_eq!(c1.session_key, c2.session_key);
}

#[test]
fn client_resets_filter_on_new_session_key() {
    let mut client = Client::new();
    let key_a = SessionKey { secs: 1, nanos: 0 };
    let key_b = SessionKey { secs: 2, nanos: 0 };
    let (v, _) = client.recv(state(5, 0, 0, vec![1], key_a)).unwrap();
    assert_eq!(vec![1], v);
    // a lower id from the same session is refused
    assert!(matches!(
        client.recv(state(1, 0, 0, vec![2], key_a)),
        Err(Exception::NotOrderedPacketError)
    ));
    // a new session key resets the filter and any id is taken
    let (v, _) = client.recv(state(1, 0, 0, vec![3], key_b)).unwrap();
    assert_eq!(vec![3], v);
    assert!(matches!(
        client.recv(state(1, 0, 0, vec![4], key_b)),
        Err(Exception::NotOrderedPacketError)
    ));
}

#[test]
fn client_cache_overflow_forgets_old_commands() {
    let mut client = Client::new();
    let server_key = SessionKey { secs: 11, nanos: 0 };
    for i in 1u32..=(CACHE_MAX as u32 + 1) {
        client.send(vec![i as u8]);
    }
    // the report asks for id 50, which overflowed out of the cache
    let (_, lost) = client.recv(state(1, 51, 0b1, vec![0], server_key)).unwrap();
    assert!(lost.is_empty());
    // id 150 is still cached
    let (_, lost) = client.recv(state(2, 151, 0b1, vec![0], server_key)).unwrap();
    assert_eq!(1, lost.len());
    assert_eq!(150, lost[0].id);
    assert_eq!(vec![150u8], lost[0].command);
}

#[test]
fn reordered_delivery_with_retransmission() {
    let mut client = Client::new();
    let mut server = Server::new();
    let c1 = client.send(vec![1]);
    let _c2_lost_in_transit = client.send(vec![2]);
    let c3 = client.send(vec![3]);
    assert_eq!(vec![vec![1u8]], server.recv(c1).unwrap());
    assert!(server.recv(c3).unwrap().is_empty());
    let s = server.send(vec![4]);
    assert_eq!(3, s.last_received);
    assert_eq!(0b01, s.sequence);
    let (payload, retransmit) = client.recv(s).unwrap();
    assert_eq!(vec![4u8], payload);
    assert_eq!(1, retransmit.len());
    assert_eq!(2, retransmit[0].id);
    let batch = server.recv(retransmit[0].clone()).unwrap();
    assert_eq!(vec![vec![2u8], vec![3u8]], batch);
}

#[test]
fn session_keys_compare_by_value() {
    assert!(key::new_key().nanos < 1_000_000_000);
    let k = test_key();
    let f = key::Filter::new(k);
    assert!(f.is_valid(SessionKey { secs: 42, nanos: 7 }));
    assert!(!f.is_valid(SessionKey { secs: 42, nanos: 8 }));
}

#[test]
fn timers_report_their_configuration() {
    let w = WaitTimer::new(30);
    assert_eq!(30, w.time_millis);
    let s = SleepTimer::new(30);
    assert!(s.remaining_millis() <= 30);
    let mut e = ElapsedTimer::new();
    let _first = e.elapsed();
}

enum Operation {
    Add,
    Mul,
}

struct Calculator<T> {
    pub op: Operation,
    pub lhs: T,
    pub rhs: T,
    pub result: Option<T>,
}

impl<T: Add<Output = T> + Mul<Output = T> + Copy> Calculator<T> {
    pub fn calculate_procedurally(&mut self) {
        let res: T = match self.op {
            Operation::Add => self.lhs + self.rhs,
            Operation::Mul => self.lhs * self.rhs,
        };
        self.result = Some(res);
    }

    pub fn calculate_functionally(mut self) -> Self {
        self.result = Some(match self.op {
            Operation::Add => self.lhs + self.rhs,
            Operation::Mul => self.lhs * self.rhs,
        });
        self
    }
}

#[test]
fn test_add() {
    let mut calc = Calculator::<isize> {
        op: Operation::Add,
        lhs: 2,
        rhs: 3,
        result: None,
    };
    calc = calc.calculate_functionally();
    assert_eq!(5, calc.result.unwrap());
}

#[test]
fn test_mul() {
    let mut calc = Calculator::<isize> {
        op: Operation::Mul,
        lhs: 2,
        rhs: 3,
        result: None,
    };
    calc = calc.calculate_functionally();
    assert_eq!(6, calc.result.unwrap());
}

#[test]
fn test_add_proc() {
    let mut calc = Calculator::<isize> {
        op: Operation::Add,
        lhs: 2,
        rhs: 3,
        result: None,
    };
    calc.calculate_procedurally();
    assert_eq!(5, calc.result.unwrap());
}

#[test]
fn test_mul_proc() {
    let mut calc = Calculator::<isize> {
        op: Operation::Mul,
        lhs: 2,
        rhs: 3,
        result: None,
    };
    calc.calculate_procedurally();
    assert_eq!(6, calc.result.unwrap());
}
