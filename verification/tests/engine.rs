use utp::congestion::Tuning;
use utp::engine::{Engine, Key, Routed};
use utp::packet::{decode, encode, DecodeError, Packet, PacketType};
use utp::socket::{State, StreamError};
use utp::Failure;

const CLIENT: u64 = 1;
const SERVER: u64 = 2;

fn engine() -> Engine {
    Engine::new(Tuning::standard())
}

/// Moves every datagram that `from` has to send into `to`, which knows the
/// sender as `sender`.
fn pump(from: &mut Engine, to: &mut Engine, sender: u64, now: u64) -> Vec<Routed> {
    let mut routed = Vec::new();
    while let Some((_, datagram)) = from.poll_transmit(now) {
        routed.push(to.handle_datagram(sender, &datagram, 30_000, now));
    }
    routed
}

fn connected() -> (Engine, Key, Engine, Key) {
    let mut client = engine();
    let mut server = engine();
    let key = client.connect(SERVER, 600, 10, 0).unwrap();
    assert_eq!(key, Key { peer: SERVER, id: 600 });
    assert_eq!(client.state(key), Some(State::HandshakeSent));
    let accepted = Key { peer: CLIENT, id: 601 };
    assert_eq!(pump(&mut client, &mut server, CLIENT, 0), vec![Routed::Accepted(accepted)]);
    assert_eq!(server.state(accepted), Some(State::HandshakeReceived));
    assert_eq!(pump(&mut server, &mut client, SERVER, 1_000), vec![Routed::Delivered(key)]);
    assert_eq!(client.state(key), Some(State::Connected));
    assert_eq!(server.accept(), Some(accepted));
    assert_eq!(server.accept(), None);
    (client, key, server, accepted)
}

#[test]
fn a_new_engine_is_empty() {
    let mut e = engine();
    assert_eq!(e.len(), 0);
    assert_eq!(e.accept(), None);
    assert_eq!(e.poll_transmit(0), None);
    let key = Key { peer: 1, id: 1 };
    assert!(!e.contains(key));
    assert_eq!(e.state(key), None);
    assert_eq!(e.failure(key), None);
    assert_eq!(e.read(key, 10), Err(StreamError::NotConnected));
    assert_eq!(e.write(key, b"x"), Err(StreamError::NotConnected));
    assert_eq!(e.close(key), Err(StreamError::NotConnected));
    assert_eq!(e.reset(key, 0), None);
    assert!(!e.release(key));
}

#[test]
fn connect_refuses_an_identifier_that_is_taken() {
    let mut e = engine();
    assert_eq!(e.connect(9, 100, 1, 0), Some(Key { peer: 9, id: 100 }));
    assert_eq!(e.connect(9, 100, 1, 0), None);
    // another peer, or another identifier, is another connection
    assert_eq!(e.connect(8, 100, 1, 0), Some(Key { peer: 8, id: 100 }));
    assert_eq!(e.connect(9, 101, 1, 0), Some(Key { peer: 9, id: 101 }));
    // at the boundary the pair steps back
    assert_eq!(e.connect(9, 0xFFFF, 1, 0), Some(Key { peer: 9, id: 0xFFFE }));
    assert_eq!(e.connect(9, 0xFFFE, 1, 0), None);
    assert_eq!(e.len(), 4);
}

#[test]
fn open_draws_identifiers_that_are_free() {
    let mut e = engine();
    let mut keys = Vec::new();
    for _ in 0..50 {
        let key = e.open(7, 0).unwrap();
        assert_eq!(key.peer, 7);
        assert!(key.id < 0xFFFF);
        assert!(!keys.contains(&key));
        assert_eq!(e.state(key), Some(State::HandshakeSent));
        keys.push(key);
    }
    assert_eq!(e.len(), 50);
    // each sends the packet that opens it, under its own identifier
    let mut ids = Vec::new();
    while let Some((peer, datagram)) = e.poll_transmit(0) {
        assert_eq!(peer, 7);
        let packet = decode(&datagram).unwrap();
        assert_eq!(packet.ty, PacketType::Syn);
        ids.push(packet.connection_id);
    }
    ids.sort();
    let mut expected: Vec<u16> = keys.iter().map(|k| k.id).collect();
    expected.sort();
    assert_eq!(ids, expected);
}

#[test]
fn handshake_through_the_accept_queue() {
    let (mut client, key, mut server, accepted) = connected();
    assert_eq!(client.write(key, b"hello"), Ok(5));
    assert_eq!(pump(&mut client, &mut server, CLIENT, 2_000), vec![Routed::Delivered(accepted)]);
    assert_eq!(server.state(accepted), Some(State::Connected));
    assert_eq!(server.read(accepted, 100), Ok(b"hello".to_vec()));
    assert_eq!(server.read(accepted, 100), Err(StreamError::WouldBlock));
    assert_eq!(server.write(accepted, b"world"), Ok(5));
    pump(&mut server, &mut client, SERVER, 3_000);
    assert_eq!(client.read(key, 100), Ok(b"world".to_vec()));
}

#[test]
fn a_repeated_opening_packet_opens_one_connection() {
    let mut client = engine();
    let mut server = engine();
    client.connect(SERVER, 40, 1, 0).unwrap();
    let (_, syn) = client.poll_transmit(0).unwrap();
    let accepted = Key { peer: CLIENT, id: 41 };
    assert_eq!(server.receive(CLIENT, &syn, 0), Routed::Accepted(accepted));
    assert_eq!(server.receive(CLIENT, &syn, 5), Routed::Delivered(accepted));
    assert_eq!(server.len(), 1);
    assert_eq!(server.backlog_len(), 1);
    assert_eq!(server.accept(), Some(accepted));
    assert_eq!(server.backlog_len(), 0);
    assert_eq!(server.accept(), None);
    // the same packet from another peer is another connection
    assert_eq!(server.receive(3, &syn, 6), Routed::Accepted(Key { peer: 3, id: 41 }));
    assert_eq!(server.len(), 2);
}

#[test]
fn malformed_and_unclaimed_datagrams_are_dropped() {
    let (mut client, key, _server, _) = connected();
    assert_eq!(
        client.handle_datagram(SERVER, &[1, 2, 3], 0, 0),
        Routed::Malformed(DecodeError::TruncatedHeader)
    );
    assert_eq!(
        client.handle_datagram(SERVER, &[0xF1; 20], 0, 0),
        Routed::Malformed(DecodeError::UnknownType)
    );
    let stray = Packet {
        ty: PacketType::Data,
        connection_id: 12_345,
        timestamp: 0,
        timestamp_difference: 0,
        window_size: 0,
        seq_nr: 1,
        ack_nr: 1,
        selective_ack: None,
        payload: b"stray".to_vec(),
    };
    assert_eq!(client.handle_datagram(SERVER, &encode(&stray), 0, 0), Routed::Unclaimed);
    // the right identifier from the wrong peer is unclaimed too
    let wrong_peer = Packet { connection_id: key.id, ..stray };
    assert_eq!(client.handle_datagram(99, &encode(&wrong_peer), 0, 0), Routed::Unclaimed);
    assert_eq!(client.handle_datagram(SERVER, &encode(&wrong_peer), 0, 0), Routed::Delivered(key));
    assert_eq!(client.len(), 1);
    assert_eq!(client.accept(), None);
}

#[test]
fn connections_of_one_engine_do_not_disturb_each_other() {
    let mut client = engine();
    let mut server = engine();
    let a = client.connect(SERVER, 10, 100, 0).unwrap();
    let b = client.connect(SERVER, 20, 200, 0).unwrap();
    pump(&mut client, &mut server, CLIENT, 0);
    pump(&mut server, &mut client, SERVER, 1_000);
    let sa = server.accept().unwrap();
    let sb = server.accept().unwrap();
    assert_eq!((sa.id, sb.id), (11, 21));
    assert_eq!(client.write(a, b"for a"), Ok(5));
    assert_eq!(client.write(b, b"for b"), Ok(5));
    pump(&mut client, &mut server, CLIENT, 2_000);
    assert_eq!(server.read(sb, 100), Ok(b"for b".to_vec()));
    assert_eq!(server.read(sa, 100), Ok(b"for a".to_vec()));
    // one connection is reset: the other goes on
    let (peer, reset) = server.reset(sa, 3_000).unwrap();
    assert_eq!(peer, CLIENT);
    assert_eq!(client.handle_datagram(SERVER, &reset, 0, 3_000), Routed::Delivered(a));
    assert_eq!(client.failure(a), Some(Failure::Reset));
    assert_eq!(client.read(a, 1), Err(StreamError::Reset));
    assert_eq!(client.write(a, b"x"), Err(StreamError::Reset));
    assert_eq!(client.state(b), Some(State::Connected));
    assert_eq!(client.write(b, b"still here"), Ok(10));
    pump(&mut client, &mut server, CLIENT, 4_000);
    assert_eq!(server.read(sb, 100), Ok(b"still here".to_vec()));
    assert!(client.release(a));
    assert!(!client.contains(a));
    assert!(client.contains(b));
    assert_eq!(client.len(), 1);
}

#[test]
fn tick_checks_every_connection() {
    let (mut client, key, mut server, accepted) = connected();
    let other = client.connect(5, 77, 1, 1_000).unwrap();
    // the last packet left or arrived at 1_000
    client.tick(30_001_000);
    server.tick(30_001_000);
    assert_eq!(client.state(key), Some(State::Connected));
    // the server has heard nothing since the packet that opened the connection
    assert_eq!(server.state(accepted), Some(State::HandshakeReceived));
    assert_eq!(client.state(other), Some(State::HandshakeSent));
    client.tick(30_001_001);
    server.tick(30_001_001);
    assert_eq!(client.failure(key), Some(Failure::Timeout));
    assert_eq!(server.failure(accepted), Some(Failure::Timeout));
    assert_eq!(client.read(key, 1), Err(StreamError::Timeout));
    assert_eq!(client.state(other), Some(State::Closed));
    assert_eq!(client.failure(other), Some(Failure::Timeout));
}

#[test]
fn close_runs_through_the_engine() {
    let (mut client, key, mut server, accepted) = connected();
    assert_eq!(client.write(key, b"bye"), Ok(3));
    assert_eq!(client.close(key), Ok(()));
    assert_eq!(client.state(key), Some(State::FinSent));
    let mut now = 2_000;
    for _ in 0..10 {
        now += 1_000;
        pump(&mut client, &mut server, CLIENT, now);
        pump(&mut server, &mut client, SERVER, now);
    }
    assert_eq!(server.read(accepted, 10), Ok(b"bye".to_vec()));
    assert_eq!(server.read(accepted, 10), Ok(vec![]));
    assert_eq!(server.close(accepted), Ok(()));
    for _ in 0..10 {
        now += 1_000;
        pump(&mut server, &mut client, SERVER, now);
        pump(&mut client, &mut server, CLIENT, now);
    }
    assert_eq!(client.state(key), Some(State::Closed));
    assert_eq!(server.state(accepted), Some(State::Closed));
    assert_eq!(client.failure(key), None);
    assert!(server.release(accepted));
    assert_eq!(server.len(), 0);
}
