use utp::in_queue::{set_bit, test_bit, InQueue};
use utp::packet::{Packet, PacketType};

fn data(seq_nr: u16, payload: &[u8]) -> Packet {
    Packet {
        ty: PacketType::Data,
        connection_id: 1,
        timestamp: 0,
        timestamp_difference: 0,
        window_size: 0,
        seq_nr,
        ack_nr: 0,
        selective_ack: None,
        payload: payload.to_vec(),
    }
}

fn chunk(i: usize) -> Vec<u8> {
    (0..(i % 5 + 1)).map(|k| (i * 7 + k) as u8).collect()
}

fn read_all(q: &mut InQueue) -> Vec<u8> {
    q.read(usize::MAX)
}

#[test]
fn in_order_packets_are_delivered_at_once() {
    let mut q = InQueue::new(100);
    q.on_packet(data(100, b"ab"));
    q.on_packet(data(101, b"cd"));
    assert_eq!(q.next_seq(), 102);
    assert_eq!(q.readable_len(), 4);
    assert_eq!(read_all(&mut q), b"abcd");
    assert_eq!(q.ack_state(), (101, None));
}

#[test]
fn a_packet_ahead_waits_for_the_gap_to_close() {
    let mut q = InQueue::new(10);
    q.on_packet(data(12, b"C"));
    q.on_packet(data(11, b"B"));
    assert_eq!(q.readable_len(), 0);
    assert_eq!(q.next_seq(), 10);
    // 11 and 12 wait: bits 0 and 1 stand for ack_nr + 2 and ack_nr + 3
    assert_eq!(q.ack_state(), (9, Some(vec![0b11, 0, 0, 0])));
    q.on_packet(data(10, b"A"));
    assert_eq!(q.next_seq(), 13);
    assert_eq!(read_all(&mut q), b"ABC");
    assert_eq!(q.ack_state(), (12, None));
}

#[test]
fn selective_ack_marks_each_waiting_packet() {
    let mut q = InQueue::new(0);
    q.on_packet(data(1, b"x"));
    q.on_packet(data(9, b"y"));
    q.on_packet(data(31, b"z"));
    let (ack_nr, mask) = q.ack_state();
    assert_eq!(ack_nr, 0xFFFF);
    // offsets 1, 9 and 31 are bits 0, 8 and 30
    assert_eq!(mask, Some(vec![0x01, 0x01, 0x00, 0x40]));
}

#[test]
fn a_packet_too_far_ahead_is_dropped() {
    let mut q = InQueue::new(0);
    q.on_packet(data(32, b"far"));
    q.on_packet(data(5_000, b"farther"));
    assert_eq!(q.ack_state(), (0xFFFF, None));
    for seq in 0..32u16 {
        q.on_packet(data(seq, b"."));
    }
    assert_eq!(q.next_seq(), 32);
    assert_eq!(read_all(&mut q).len(), 32);
}

#[test]
fn an_old_packet_is_not_delivered_again() {
    let mut q = InQueue::new(7);
    q.on_packet(data(7, b"one"));
    q.on_packet(data(8, b"two"));
    q.on_packet(data(7, b"ONE"));
    q.on_packet(data(8, b"TWO"));
    q.on_packet(data(6, b"zero"));
    assert_eq!(q.next_seq(), 9);
    assert_eq!(read_all(&mut q), b"onetwo");
}

#[test]
fn a_second_copy_of_a_waiting_packet_is_dropped() {
    let mut q = InQueue::new(0);
    q.on_packet(data(2, b"first"));
    q.on_packet(data(2, b"second"));
    q.on_packet(data(0, b"a"));
    q.on_packet(data(1, b"b"));
    assert_eq!(read_all(&mut q), b"abfirst");
}

#[test]
fn sequence_numbers_wrap_around() {
    let mut q = InQueue::new(0xFFFE);
    q.on_packet(data(0, b"c"));
    q.on_packet(data(1, b"d"));
    q.on_packet(data(0xFFFF, b"b"));
    assert_eq!(q.ack_state(), (0xFFFD, Some(vec![0b111, 0, 0, 0])));
    q.on_packet(data(0xFFFE, b"a"));
    assert_eq!(q.next_seq(), 2);
    assert_eq!(q.ack_state(), (1, None));
    assert_eq!(read_all(&mut q), b"abcd");
    // behind the wrap: old
    q.on_packet(data(0xFFFF, b"again"));
    assert_eq!(q.readable_len(), 0);
}

#[test]
fn read_hands_out_bytes_once_and_in_order() {
    let mut q = InQueue::new(0);
    q.on_packet(data(0, b"hello world"));
    assert_eq!(q.read(5), b"hello");
    assert_eq!(q.readable_len(), 6);
    assert_eq!(q.read(0), b"");
    assert_eq!(q.read(100), b" world");
    assert_eq!(q.read(100), b"");
}

fn permutations(n: usize) -> Vec<Vec<usize>> {
    if n == 0 {
        return vec![vec![]];
    }
    let mut all = Vec::new();
    for p in permutations(n - 1) {
        for at in 0..=p.len() {
            let mut q = p.clone();
            q.insert(at, n - 1);
            all.push(q);
        }
    }
    all
}

#[test]
fn any_permutation_yields_the_stream_in_order() {
    let n = 6;
    let expected: Vec<u8> = (0..n).flat_map(chunk).collect();
    for order in permutations(n) {
        let mut q = InQueue::new(0xFFFD);
        for &i in &order {
            q.on_packet(data(0xFFFDu16.wrapping_add(i as u16), &chunk(i)));
        }
        assert_eq!(q.next_seq(), 0xFFFDu16.wrapping_add(n as u16));
        assert_eq!(q.ack_state().1, None);
        assert_eq!(read_all(&mut q), expected);
    }
}

#[test]
fn a_full_window_in_reverse_order_is_reassembled() {
    let n = 32;
    let expected: Vec<u8> = (0..n).flat_map(chunk).collect();
    let mut q = InQueue::new(500);
    for i in (0..n).rev() {
        q.on_packet(data(500 + i as u16, &chunk(i)));
    }
    assert_eq!(read_all(&mut q), expected);
}

#[test]
fn missing_packets_delivered_later_complete_the_stream() {
    let n = 80;
    let expected: Vec<u8> = (0..n).flat_map(chunk).collect();
    let mut q = InQueue::new(0);
    // odd ones first, many of them too far ahead, then duplicates, then all in order
    for i in (0..n).filter(|i| i % 2 == 1) {
        q.on_packet(data(i as u16, &chunk(i)));
    }
    for i in (0..n).rev() {
        q.on_packet(data(i as u16, &chunk(i)));
    }
    let so_far = read_all(&mut q);
    assert_eq!(so_far[..], expected[..so_far.len()]);
    for i in 0..n {
        q.on_packet(data(i as u16, &chunk(i)));
    }
    let mut all = so_far;
    all.extend(read_all(&mut q));
    assert_eq!(all, expected);
    assert_eq!(q.next_seq(), n as u16);
}

#[test]
fn duplicates_of_delivered_packets_add_nothing() {
    let mut q = InQueue::new(0);
    for i in 0..10 {
        q.on_packet(data(i as u16, &chunk(i)));
    }
    let delivered = q.readable_len();
    for i in 0..10 {
        q.on_packet(data(i as u16, b"other bytes"));
        assert_eq!(q.readable_len(), delivered);
        assert_eq!(q.next_seq(), 10);
    }
}

#[test]
fn bits_are_set_and_tested() {
    assert_eq!(set_bit(0, 0), 1);
    assert_eq!(set_bit(0, 7), 0x80);
    assert_eq!(set_bit(0x81, 3), 0x89);
    assert_eq!(set_bit(0x08, 3), 0x08);
    assert!(test_bit(0x80, 7));
    assert!(!test_bit(0x80, 6));
    assert!(test_bit(0x01, 0));
    assert!(!test_bit(0xFE, 0));
}
