use utp::congestion::Tuning;
use utp::packet::{decode, encode, Packet, PacketType};
use utp::socket::{Connection, State, StreamError, INACTIVITY_CEILING};
use utp::Failure;

const STEP: u64 = 20_000;
const SKEW: u64 = 7_000;

/// Carries what one side has to send to the other, through the wire
/// format; `deliver` says for each packet whether it gets through.
fn carry(
    from: &mut Connection,
    from_now: u64,
    to: &mut Connection,
    to_now: u64,
    deliver: &mut dyn FnMut(&Packet) -> bool,
) -> usize {
    let mut carried = 0;
    while let Some(packet) = from.poll_transmit(from_now) {
        let datagram = encode(&packet);
        let arrived = decode(&datagram).unwrap();
        assert_eq!(arrived, packet);
        if deliver(&arrived) {
            to.on_packet(arrived, to_now);
            carried += 1;
        }
    }
    carried
}

/// A client and a server with the handshake done.
fn connected_pair() -> (Connection, Connection, u64) {
    let mut client = Connection::new(Tuning::standard());
    let mut server = Connection::new(Tuning::standard());
    let mut now = 1_000_000;
    assert!(client.connect(4_000, 1, now));
    assert_eq!(client.state(), State::HandshakeSent);
    assert_eq!((client.recv_id(), client.send_id()), (4_000, 4_001));

    let syn = client.poll_transmit(now).unwrap();
    assert_eq!(syn.ty, PacketType::Syn);
    assert_eq!(syn.connection_id, 4_000);
    assert_eq!(syn.seq_nr, 1);
    assert_eq!(client.poll_transmit(now), None);

    let syn = decode(&encode(&syn)).unwrap();
    assert!(server.accept_packet(&syn, 9_000, now + SKEW));
    assert_eq!(server.state(), State::HandshakeReceived);
    assert_eq!((server.recv_id(), server.send_id()), (4_001, 4_000));

    now += STEP;
    let ack = server.poll_transmit(now + SKEW).unwrap();
    assert_eq!(ack.ty, PacketType::State);
    assert_eq!(ack.connection_id, 4_000);
    assert_eq!(ack.ack_nr, 1);
    assert_eq!(ack.seq_nr, 9_000);
    client.on_packet(decode(&encode(&ack)).unwrap(), now);
    assert_eq!(client.state(), State::Connected);
    (client, server, now)
}

#[test]
fn handshake_connects_both_sides() {
    let (mut client, mut server, now) = connected_pair();
    assert_eq!(client.write(b"ping"), Ok(4));
    assert_eq!(carry(&mut client, now, &mut server, now + SKEW, &mut |_| true), 1);
    assert_eq!(server.state(), State::Connected);
    assert_eq!(server.read(100), Ok(b"ping".to_vec()));
    assert_eq!(server.read(100), Err(StreamError::WouldBlock));
    assert_eq!(server.write(b"pong"), Ok(4));
    assert_eq!(carry(&mut server, now + SKEW, &mut client, now, &mut |_| true), 1);
    assert_eq!(client.read(2), Ok(b"po".to_vec()));
    assert_eq!(client.read(2), Ok(b"ng".to_vec()));
    assert_eq!(client.read(2), Err(StreamError::WouldBlock));
}

#[test]
fn reads_and_writes_wait_for_the_handshake() {
    let mut idle = Connection::new(Tuning::standard());
    assert_eq!(idle.state(), State::Idle);
    assert_eq!(idle.write(b"x"), Err(StreamError::NotConnected));
    assert_eq!(idle.read(1), Err(StreamError::NotConnected));
    assert_eq!(idle.poll_transmit(0), None);

    let mut client = Connection::new(Tuning::standard());
    assert!(client.connect(0xFFFF, 0xFFFF, 0));
    assert_eq!((client.recv_id(), client.send_id()), (0xFFFE, 0xFFFF));
    assert!(!client.connect(5, 5, 0));
    assert_eq!(client.write(b"x"), Err(StreamError::WouldBlock));
    assert_eq!(client.read(1), Err(StreamError::WouldBlock));
}

#[test]
fn a_lost_handshake_packet_is_sent_again() {
    let mut client = Connection::new(Tuning::standard());
    assert!(client.connect(10, 500, 0));
    let first = client.poll_transmit(0).unwrap();
    client.tick(999_999);
    assert_eq!(client.poll_transmit(999_999), None);
    client.tick(1_000_000);
    let second = client.poll_transmit(1_000_000).unwrap();
    assert_eq!(second.ty, PacketType::Syn);
    assert_eq!(second.seq_nr, first.seq_nr);
    assert_eq!(second.connection_id, first.connection_id);

    // a server that sees the opening packet twice acknowledges twice
    let mut server = Connection::new(Tuning::standard());
    assert!(server.accept_packet(&first, 7, 10));
    let ack = server.poll_transmit(10).unwrap();
    assert_eq!(server.poll_transmit(10), None);
    server.on_packet(second, 20);
    assert_eq!(server.state(), State::HandshakeReceived);
    let again = server.poll_transmit(20).unwrap();
    assert_eq!((again.ty, again.ack_nr, again.seq_nr), (ack.ty, ack.ack_nr, ack.seq_nr));
}

/// The client writes 10,000 bytes in one call and every third packet from
/// client to server is dropped once.
#[test]
fn transfer_survives_every_third_packet_dropped_once() {
    let (mut client, mut server, mut now) = connected_pair();
    let written: Vec<u8> = (0..10_000u32).map(|i| (i * 31 % 256) as u8).collect();
    assert_eq!(client.write(&written), Ok(10_000));
    assert_eq!(client.close(), Ok(()));
    assert_eq!(client.state(), State::FinSent);

    let mut count = 0usize;
    let mut dropped_once: Vec<u16> = Vec::new();
    let mut drops = 0usize;
    let mut lossy = |p: &Packet| {
        count += 1;
        if count % 3 == 0 && !dropped_once.contains(&p.seq_nr) {
            dropped_once.push(p.seq_nr);
            drops += 1;
            false
        } else {
            true
        }
    };

    let mut read: Vec<u8> = Vec::new();
    let mut at_end = false;
    for _ in 0..20_000 {
        now += STEP;
        client.tick(now);
        server.tick(now + SKEW);
        carry(&mut client, now, &mut server, now + SKEW, &mut lossy);
        carry(&mut server, now + SKEW, &mut client, now, &mut |_| true);
        loop {
            match server.read(777) {
                Ok(bytes) if bytes.is_empty() => {
                    at_end = true;
                    break;
                }
                Ok(bytes) => read.extend(bytes),
                Err(StreamError::WouldBlock) => break,
                Err(e) => panic!("read failed: {:?}", e),
            }
        }
        if at_end {
            break;
        }
    }
    assert!(at_end);
    assert!(drops >= 2);
    assert_eq!(read.len(), 10_000);
    assert_eq!(read, written);
    assert_eq!(server.state(), State::FinReceived);

    // the server closes too and both sides come to rest
    assert_eq!(server.close(), Ok(()));
    for _ in 0..200 {
        now += STEP;
        client.tick(now);
        server.tick(now + SKEW);
        carry(&mut server, now + SKEW, &mut client, now, &mut |_| true);
        carry(&mut client, now, &mut server, now + SKEW, &mut |_| true);
    }
    assert_eq!(client.state(), State::Closed);
    assert_eq!(server.state(), State::Closed);
    assert_eq!(client.failure(), None);
    assert_eq!(server.failure(), None);
    assert_eq!(client.read(10), Ok(vec![]));
    assert_eq!(server.read(10), Ok(vec![]));
    assert_eq!(client.write(b"late"), Err(StreamError::NotConnected));
}

#[test]
fn transfer_in_both_directions_with_loss_both_ways() {
    let (mut client, mut server, mut now) = connected_pair();
    let up: Vec<u8> = (0..60_000u32).map(|i| (i % 253) as u8).collect();
    let down: Vec<u8> = (0..45_000u32).map(|i| (i % 241) as u8).collect();
    let (mut up_at, mut down_at) = (0usize, 0usize);
    let (mut got_up, mut got_down): (Vec<u8>, Vec<u8>) = (Vec::new(), Vec::new());
    let mut n = 0u32;
    let mut lossy = move |_: &Packet| {
        n = n.wrapping_mul(1_103_515_245).wrapping_add(12_345);
        (n >> 16) % 10 != 0
    };
    for _ in 0..50_000 {
        now += STEP;
        if up_at < up.len() {
            match client.write(&up[up_at..]) {
                Ok(k) => up_at += k,
                Err(StreamError::WouldBlock) => {}
                Err(e) => panic!("write failed: {:?}", e),
            }
        }
        if down_at < down.len() {
            match server.write(&down[down_at..]) {
                Ok(k) => down_at += k,
                Err(StreamError::WouldBlock) => {}
                Err(e) => panic!("write failed: {:?}", e),
            }
        }
        client.tick(now);
        server.tick(now + SKEW);
        carry(&mut client, now, &mut server, now + SKEW, &mut lossy);
        carry(&mut server, now + SKEW, &mut client, now, &mut lossy);
        while let Ok(bytes) = server.read(4_096) {
            got_up.extend(bytes);
        }
        while let Ok(bytes) = client.read(4_096) {
            got_down.extend(bytes);
        }
        if got_up.len() == up.len() && got_down.len() == down.len() {
            break;
        }
    }
    assert_eq!(got_up, up);
    assert_eq!(got_down, down);
    assert_eq!(client.failure(), None);
    assert_eq!(server.failure(), None);
}

#[test]
fn write_signals_would_block_at_the_ceiling() {
    let (mut client, _server, _now) = connected_pair();
    let big = vec![1u8; 100_000];
    assert_eq!(client.write(&big), Ok(32 * 1_400));
    assert_eq!(client.write(&big), Err(StreamError::WouldBlock));
    assert_eq!(client.write(b""), Ok(0));
    assert_eq!(client.close(), Err(StreamError::WouldBlock));
    assert_eq!(client.state(), State::Connected);
}

/// The server resets the connection in the middle of a transfer.
#[test]
fn reset_fails_pending_reads_and_writes() {
    let (mut client, mut server, mut now) = connected_pair();
    assert_eq!(client.write(&vec![5u8; 20_000]), Ok(20_000));
    for _ in 0..3 {
        now += STEP;
        carry(&mut client, now, &mut server, now + SKEW, &mut |_| true);
        carry(&mut server, now + SKEW, &mut client, now, &mut |_| true);
    }
    assert!(server.read(1_000).unwrap().len() > 0);
    assert_eq!(client.read(10), Err(StreamError::WouldBlock));

    let reset = server.reset(now + SKEW).unwrap();
    assert_eq!(reset.ty, PacketType::Reset);
    assert_eq!(reset.connection_id, server.send_id());
    assert_eq!(server.state(), State::Closed);
    assert_eq!(server.reset(now + SKEW), None);
    client.on_packet(decode(&encode(&reset)).unwrap(), now);

    assert_eq!(client.state(), State::Closed);
    assert_eq!(client.failure(), Some(Failure::Reset));
    assert_eq!(client.read(10), Err(StreamError::Reset));
    assert_eq!(client.write(b"more"), Err(StreamError::Reset));
    assert_eq!(client.poll_transmit(now), None);
    assert_eq!(server.read(10), Err(StreamError::Reset));
    assert_eq!(server.write(b"more"), Err(StreamError::Reset));
}

/// A connection without traffic for longer than the inactivity
/// ceiling ends with a timeout on both sides, each by itself.
#[test]
fn an_idle_connection_times_out_on_both_sides() {
    let (mut client, mut server, mut now) = connected_pair();
    assert_eq!(client.write(b"hello"), Ok(5));
    for _ in 0..5 {
        now += STEP;
        client.tick(now);
        server.tick(now + SKEW);
        carry(&mut client, now, &mut server, now + SKEW, &mut |_| true);
        carry(&mut server, now + SKEW, &mut client, now, &mut |_| true);
    }
    assert_eq!(server.read(10), Ok(b"hello".to_vec()));
    let quiet_since = now;

    // nothing is in flight and nothing is sent: ticks alone
    while now < quiet_since + INACTIVITY_CEILING {
        now += 1_000_000;
        client.tick(now);
        server.tick(now + SKEW);
        assert_eq!(client.poll_transmit(now), None);
        assert_eq!(server.poll_transmit(now + SKEW), None);
        if now <= quiet_since + INACTIVITY_CEILING - SKEW {
            assert_eq!(client.state(), State::Connected);
            assert_eq!(server.state(), State::Connected);
        }
    }
    now += 1_000_000;
    client.tick(now);
    assert_eq!(client.state(), State::Closed);
    assert_eq!(client.failure(), Some(Failure::Timeout));
    assert_eq!(client.read(10), Err(StreamError::Timeout));
    assert_eq!(client.write(b"x"), Err(StreamError::Timeout));
    server.tick(now + SKEW);
    assert_eq!(server.state(), State::Closed);
    assert_eq!(server.failure(), Some(Failure::Timeout));
    assert_eq!(server.read(10), Err(StreamError::Timeout));
    assert_eq!(server.write(b"x"), Err(StreamError::Timeout));
}

#[test]
fn a_silent_peer_times_out_by_retransmissions() {
    let (mut client, _server, mut now) = connected_pair();
    assert_eq!(client.write(b"anyone?"), Ok(7));
    let mut transmissions = 0;
    for _ in 0..40 {
        now += 1_000_000;
        client.tick(now);
        while let Some(p) = client.poll_transmit(now) {
            assert_eq!(p.payload, b"anyone?");
            transmissions += 1;
        }
        if client.state() == State::Closed {
            break;
        }
    }
    assert_eq!(client.state(), State::Closed);
    assert_eq!(client.failure(), Some(Failure::Timeout));
    assert!(transmissions >= 2 && transmissions <= 6);
}

#[test]
fn end_of_stream_comes_after_the_data() {
    let (mut client, mut server, now) = connected_pair();
    assert_eq!(client.write(b"last words"), Ok(10));
    assert_eq!(client.close(), Ok(()));
    assert_eq!(client.close(), Ok(()));
    carry(&mut client, now, &mut server, now + SKEW, &mut |_| true);
    carry(&mut server, now + SKEW, &mut client, now, &mut |_| true);
    carry(&mut client, now, &mut server, now + SKEW, &mut |_| true);
    assert_eq!(server.state(), State::FinReceived);
    assert!(!server.at_end_of_stream() || server.read(0).is_ok());
    assert_eq!(server.read(4), Ok(b"last".to_vec()));
    assert_eq!(server.read(100), Ok(b" words".to_vec()));
    assert!(server.at_end_of_stream());
    assert_eq!(server.read(100), Ok(vec![]));
    // the server may still write
    assert_eq!(server.write(b"goodbye"), Ok(7));
    carry(&mut server, now + SKEW, &mut client, now, &mut |_| true);
    assert_eq!(client.read(100), Ok(b"goodbye".to_vec()));
    assert_eq!(client.read(100), Err(StreamError::WouldBlock));
}

#[test]
fn closing_before_the_handshake_is_over_ends_the_connection() {
    let mut client = Connection::new(Tuning::standard());
    assert!(client.connect(1, 1, 0));
    assert_eq!(client.close(), Ok(()));
    assert_eq!(client.state(), State::Closed);
    assert_eq!(client.failure(), None);
    assert_eq!(client.poll_transmit(0), None);
    assert_eq!(client.write(b"x"), Err(StreamError::NotConnected));
    assert_eq!(client.read(1), Ok(vec![]));
}

#[test]
fn packets_carry_the_acknowledgment_state() {
    let (mut client, mut server, now) = connected_pair();
    assert_eq!(client.write(&vec![3u8; 1_400 * 3]), Ok(4_200));
    // the handshake was one window acknowledged in full: two packets may go
    let first = client.poll_transmit(now).unwrap();
    let second = client.poll_transmit(now).unwrap();
    assert_eq!(second.seq_nr, 3);
    assert_eq!(client.poll_transmit(now), None);
    assert_eq!(first.connection_id, 4_001);
    assert_eq!(first.seq_nr, 2);
    assert_eq!(first.ack_nr, 8_999);
    assert_eq!(first.window_size, 65_536);
    server.on_packet(first, now + SKEW);
    let ack = server.poll_transmit(now + SKEW).unwrap();
    assert_eq!(ack.ty, PacketType::State);
    assert_eq!(ack.ack_nr, 2);
    assert_eq!(ack.selective_ack, None);
    assert_eq!(ack.timestamp_difference, SKEW as u32);
    assert_eq!(ack.window_size, 65_536 - 1_400);
    assert_eq!(server.poll_transmit(now + SKEW), None);
}
