//! The inbound queue: turns packets that arrive late, twice or out of order
//! into the ordered byte stream, and says what to acknowledge.

use crate::packet::{append_bytes, bytes_view, Packet};
use crate::util::{
    lemma_distance_is_modular, lemma_seq_mask, modular_distance,
    precedes, wrapping_distance, wrapping_lt, SEQ_MASK,
};
use crate::MAX_DELTA_SEQ;
use vstd::arithmetic::div_mod::{lemma_fundamental_div_mod_converse, lemma_mod_multiples_vanish};
use vstd::prelude::*;

verus! {

/// Length in bytes of the selective acknowledgment that the queue reports.
pub const SELECTIVE_ACK_LEN: usize = 4;

// ---------------------------------------------------------------------------
// Bits of a selective acknowledgment
// ---------------------------------------------------------------------------

/// Bit `k` of `byte` is set, bit 0 being the least significant.
pub open spec fn bit_is_set(byte: u8, k: u8) -> bool {
    (byte >> k) & 1u8 == 1u8
}

/// `byte` with bit `k` set.
pub open spec fn with_bit(byte: u8, k: u8) -> u8 {
    byte | (1u8 << k)
}

/// Bit `i` of the selective acknowledgment `mask`: bit `i % 8` of byte
/// `i / 8`, and unset beyond the end of the mask.
pub open spec fn selective_ack_bit(mask: Seq<u8>, i: int) -> bool {
    0 <= i < 8 * mask.len() && bit_is_set(mask[i / 8], (i % 8) as u8)
}

/// Setting a bit sets that bit and leaves the others.
pub proof fn lemma_with_bit(byte: u8, k: u8, j: u8)
    requires
        k < 8,
        j < 8,
    ensures
        bit_is_set(with_bit(byte, k), j) == (j == k || bit_is_set(byte, j)),
        !bit_is_set(0u8, j),
{
    assert(((byte | (1u8 << k)) >> j) & 1u8 == 1u8 <==> (j == k || (byte >> j) & 1u8 == 1u8))
        by (bit_vector)
        requires
            k < 8,
            j < 8,
    ;
    assert((0u8 >> j) & 1u8 == 0u8) by (bit_vector);
}

/// Two bytes with the same bits are the same byte.
pub proof fn lemma_byte_by_bits(x: u8, y: u8)
    requires
        forall|k: u8| k < 8 ==> bit_is_set(x, k) == bit_is_set(y, k),
    ensures
        x == y,
{
    assert(bit_is_set(x, 0) == bit_is_set(y, 0));
    assert(bit_is_set(x, 1) == bit_is_set(y, 1));
    assert(bit_is_set(x, 2) == bit_is_set(y, 2));
    assert(bit_is_set(x, 3) == bit_is_set(y, 3));
    assert(bit_is_set(x, 4) == bit_is_set(y, 4));
    assert(bit_is_set(x, 5) == bit_is_set(y, 5));
    assert(bit_is_set(x, 6) == bit_is_set(y, 6));
    assert(bit_is_set(x, 7) == bit_is_set(y, 7));
    assert(x == y) by (bit_vector)
        requires
            ((x >> 0u8) & 1u8 == 1u8) == ((y >> 0u8) & 1u8 == 1u8),
            ((x >> 1u8) & 1u8 == 1u8) == ((y >> 1u8) & 1u8 == 1u8),
            ((x >> 2u8) & 1u8 == 1u8) == ((y >> 2u8) & 1u8 == 1u8),
            ((x >> 3u8) & 1u8 == 1u8) == ((y >> 3u8) & 1u8 == 1u8),
            ((x >> 4u8) & 1u8 == 1u8) == ((y >> 4u8) & 1u8 == 1u8),
            ((x >> 5u8) & 1u8 == 1u8) == ((y >> 5u8) & 1u8 == 1u8),
            ((x >> 6u8) & 1u8 == 1u8) == ((y >> 6u8) & 1u8 == 1u8),
            ((x >> 7u8) & 1u8 == 1u8) == ((y >> 7u8) & 1u8 == 1u8),
    ;
}

/// Tells whether bit `k` of `byte` is set.
pub fn test_bit(byte: u8, k: u8) -> (r: bool)
    requires
        k < 8,
    ensures
        r == bit_is_set(byte, k),
{
    (byte >> k) & 1u8 == 1u8
}

/// `byte` with bit `k` set.
pub fn set_bit(byte: u8, k: u8) -> (r: u8)
    requires
        k < 8,
    ensures
        r == with_bit(byte, k),
{
    byte | (1u8 << k)
}

// ---------------------------------------------------------------------------
// The queue as a mathematical value
// ---------------------------------------------------------------------------

/// The sequence number `steps` after `base`.
pub open spec fn seq_after(base: u16, steps: int) -> u16 {
    ((base + steps) % 0x1_0000) as u16
}

/// Where an arriving packet stands relative to the next expected one.
pub enum Arrival {
    /// At or behind what was acknowledged already.
    Old,
    /// The next expected packet.
    InOrder,
    /// Ahead of the next expected packet by this many, and within reach.
    Ahead(int),
    /// Ahead by more than the queue keeps room for.
    TooFar,
}

/// The inbound queue as a mathematical value.
pub struct InQueueView {
    /// Sequence number of the next packet to deliver.
    pub next_seq: u16,
    /// `slots[d]` is the payload of the packet `d` after the next expected
    /// one, where it has arrived.
    pub slots: Seq<Option<Seq<u8>>>,
    /// Bytes delivered in order and not read yet.
    pub readable: Seq<u8>,
}

/// The first place from `from` on where `slots` holds nothing, or the length
/// of `slots`.
pub open spec fn run_end(slots: Seq<Option<Seq<u8>>>, from: int) -> int
    decreases slots.len() - from,
{
    if 0 <= from < slots.len() && slots[from] is Some {
        run_end(slots, from + 1)
    } else {
        from
    }
}

/// The payloads in `slots[from..to]`, one after the other.
pub open spec fn drained(slots: Seq<Option<Seq<u8>>>, from: int, to: int) -> Seq<u8>
    decreases to - from,
{
    if to <= from {
        Seq::empty()
    } else {
        drained(slots, from, to - 1) + slots[to - 1].unwrap()
    }
}

/// `slots` moved down by `by` places, the top filled with empty places.
pub open spec fn shifted(slots: Seq<Option<Seq<u8>>>, by: int) -> Seq<Option<Seq<u8>>> {
    Seq::new(
        slots.len(),
        |d: int|
            if d + by < slots.len() {
                slots[d + by]
            } else {
                None
            },
    )
}

impl InQueueView {
    /// The queue keeps room for `MAX_DELTA_SEQ` sequence numbers, and the
    /// place of the next expected packet is empty.
    pub open spec fn wf(self) -> bool {
        &&& self.slots.len() == MAX_DELTA_SEQ
        &&& self.slots[0] is None
    }

    /// The empty queue that expects `next_seq`.
    pub open spec fn empty(next_seq: u16) -> InQueueView {
        InQueueView {
            next_seq,
            slots: Seq::new(MAX_DELTA_SEQ as nat, |d: int| None),
            readable: Seq::empty(),
        }
    }

    /// The packet `d` after the next expected one has arrived and waits.
    pub open spec fn holds(self, d: int) -> bool {
        0 <= d < self.slots.len() && self.slots[d] is Some
    }

    /// Some packet waits for a gap before it to close.
    pub open spec fn has_pending(self) -> bool {
        exists|d: int| self.holds(d)
    }

    /// `mask` is the selective acknowledgment of the queue: there is one
    /// where packets wait behind a gap, and bit `i` of it is set where the
    /// packet `i + 1` after the next expected one waits.
    pub open spec fn marked_by(self, mask: Option<Seq<u8>>) -> bool {
        &&& mask is Some <==> self.has_pending()
        &&& mask matches Some(m) ==> m.len() == SELECTIVE_ACK_LEN && forall|i: int|
            0 <= i < 8 * SELECTIVE_ACK_LEN ==> #[trigger] selective_ack_bit(m, i) == self.holds(
                i + 1,
            )
    }

    /// Sequence number of the last packet delivered in order.
    pub open spec fn ack_nr(self) -> u16 {
        seq_after(self.next_seq, -1)
    }

    /// Where a packet with the sequence number `seq_nr` stands.
    pub open spec fn classify(self, seq_nr: u16) -> Arrival {
        let d = wrapping_distance(self.next_seq as u32, seq_nr as u32, SEQ_MASK);
        if precedes(seq_nr as u32, self.next_seq as u32, SEQ_MASK) {
            Arrival::Old
        } else if d == 0 {
            Arrival::InOrder
        } else if d < self.slots.len() {
            Arrival::Ahead(d as int)
        } else {
            Arrival::TooFar
        }
    }

    /// The queue after the arrival of a packet.
    ///
    /// The next expected packet is delivered together with the packets that
    /// waited right behind it. A packet ahead of it waits in its place,
    /// unless one waits there already. Any other packet changes nothing.
    pub open spec fn accept(self, seq_nr: u16, payload: Seq<u8>) -> InQueueView {
        match self.classify(seq_nr) {
            Arrival::Old => self,
            Arrival::TooFar => self,
            Arrival::Ahead(d) => if self.slots[d] is None {
                InQueueView { slots: self.slots.update(d, Some(payload)), ..self }
            } else {
                self
            },
            Arrival::InOrder => {
                let r = run_end(self.slots, 1);
                InQueueView {
                    next_seq: seq_after(self.next_seq, r),
                    slots: shifted(self.slots, r),
                    readable: self.readable + payload + drained(self.slots, 1, r),
                }
            },
        }
    }

    /// The queue after the application has read `n` bytes.
    pub open spec fn consume(self, n: int) -> InQueueView {
        InQueueView { readable: self.readable.subrange(n, self.readable.len() as int), ..self }
    }
}

// ---------------------------------------------------------------------------
// The queue
// ---------------------------------------------------------------------------

/// Buffers received data packets and delivers their payload in order.
pub struct InQueue {
    next_seq: u16,
    slots: Vec<Option<Vec<u8>>>,
    readable: Vec<u8>,
}

/// The waiting payloads as mathematical values.
pub open spec fn slots_view(slots: Seq<Option<Vec<u8>>>) -> Seq<Option<Seq<u8>>> {
    Seq::new(slots.len(), |d: int| bytes_view(slots[d]))
}

impl View for InQueue {
    type V = InQueueView;

    closed spec fn view(&self) -> InQueueView {
        InQueueView {
            next_seq: self.next_seq,
            slots: slots_view(self.slots@),
            readable: self.readable@,
        }
    }
}

proof fn lemma_run_end(slots: Seq<Option<Seq<u8>>>, from: int, to: int)
    requires
        0 <= from <= to <= slots.len(),
        forall|d: int| from <= d < to ==> (#[trigger] slots[d]) is Some,
        to == slots.len() || slots[to] is None,
    ensures
        run_end(slots, from) == to,
    decreases to - from,
{
    if from < to {
        lemma_run_end(slots, from + 1, to);
    }
}

proof fn lemma_run_end_bounds(slots: Seq<Option<Seq<u8>>>, from: int)
    requires
        0 <= from <= slots.len(),
    ensures
        from <= run_end(slots, from) <= slots.len(),
        forall|d: int| from <= d < run_end(slots, from) ==> (#[trigger] slots[d]) is Some,
        run_end(slots, from) == slots.len() || slots[run_end(slots, from)] is None,
    decreases slots.len() - from,
{
    if from < slots.len() && slots[from] is Some {
        lemma_run_end_bounds(slots, from + 1);
    }
}

proof fn lemma_seq_after_step(base: u16, steps: int)
    ensures
        seq_after(seq_after(base, steps), 1) == seq_after(base, steps + 1),
        seq_after(base, 0) == base,
{
    let m: int = 0x1_0000;
    let x: int = base + steps;
    let q: int = x / m;
    let r: int = x % m;
    vstd::arithmetic::div_mod::lemma_fundamental_div_mod(x, m);
    // (r + 1) % m == (x + 1) % m
    assert(x + 1 == m * q + (r + 1));
    assert(m * q == q * m) by (nonlinear_arith);
    lemma_mod_multiples_vanish(q, r + 1, m);
    lemma_fundamental_div_mod_converse(base as int, m, 0, base as int);
}

impl InQueue {
    /// The invariant of the queue.
    pub open spec fn wf(&self) -> bool {
        self@.wf()
    }

    /// An empty queue that expects the packet `next_seq` first.
    pub fn new(next_seq: u16) -> (q: InQueue)
        ensures
            q.wf(),
            q@ == InQueueView::empty(next_seq),
    {
        let mut slots: Vec<Option<Vec<u8>>> = Vec::new();
        let mut d: usize = 0;
        while d < MAX_DELTA_SEQ
            invariant
                d <= MAX_DELTA_SEQ,
                slots@.len() == d,
                forall|j: int| 0 <= j < d ==> (#[trigger] slots@[j]) is None,
            decreases MAX_DELTA_SEQ - d,
        {
            slots.push(None);
            d = d + 1;
        }
        let q = InQueue { next_seq, slots, readable: Vec::new() };
        assert(q@.slots =~= InQueueView::empty(next_seq).slots);
        q
    }

    /// Takes in a packet that arrived.
    ///
    /// The next expected packet is delivered, and with it the packets that
    /// waited right behind it. A packet ahead of the next expected one waits,
    /// if the queue keeps room that far ahead. A packet at or behind what
    /// was delivered already, or a second copy of a waiting one, is dropped.
    pub fn on_packet(&mut self, packet: Packet)
        requires
            old(self).wf(),
        ensures
            final(self).wf(),
            final(self)@ == old(self)@.accept(packet.seq_nr, packet.payload@),
    {
        let ghost before = self@;
        let seq: u32 = packet.seq_nr as u32;
        let next: u32 = self.next_seq as u32;
        if wrapping_lt(seq, next, SEQ_MASK) {
            return ;
        }
        let d: u32 = seq.wrapping_sub(next) & SEQ_MASK;
        if d == 0 {
            self.deliver(packet.payload);
        } else if (d as usize) < self.slots.len() {
            if self.slots[d as usize].is_none() {
                self.slots.set(d as usize, Some(packet.payload));
                assert(self@.slots =~= before.slots.update(d as int, Some(packet.payload@)));
            }
        }
    }

    /// Delivers the next expected packet and those that waited behind it.
    fn deliver(&mut self, payload: Vec<u8>)
        requires
            old(self).wf(),
        ensures
            final(self).wf(),
            final(self)@ == (InQueueView {
                next_seq: seq_after(old(self)@.next_seq, run_end(old(self)@.slots, 1)),
                slots: shifted(old(self)@.slots, run_end(old(self)@.slots, 1)),
                readable: old(self)@.readable + payload@ + drained(
                    old(self)@.slots,
                    1,
                    run_end(old(self)@.slots, 1),
                ),
            }),
    {
        let ghost before = self@;
        append_bytes(&mut self.readable, payload.as_slice());
        self.next_seq = self.next_seq.wrapping_add(1);
        let _ = self.slots.remove(0);
        self.slots.push(None);
        let mut t: usize = 1;
        proof {
            lemma_seq_after_step(before.next_seq, 0);
            assert(self@.slots =~= shifted(before.slots, 1));
            assert(drained(before.slots, 1, 1) =~= Seq::<u8>::empty());
            assert(self@.readable =~= before.readable + payload@ + drained(before.slots, 1, 1));
        }
        while self.slots[0].is_some()
            invariant
                before.slots.len() == MAX_DELTA_SEQ,
                self.slots@.len() == MAX_DELTA_SEQ,
                1 <= t <= MAX_DELTA_SEQ,
                self@.slots == shifted(before.slots, t as int),
                self@.readable == before.readable + payload@ + drained(before.slots, 1, t as int),
                self@.next_seq == seq_after(before.next_seq, t as int),
                forall|d: int| 1 <= d < t ==> (#[trigger] before.slots[d]) is Some,
            decreases MAX_DELTA_SEQ - t,
        {
            let ghost mid = self@;
            let ghost mid_slots = self.slots@;
            assert(mid.slots[0] == shifted(before.slots, t as int)[0]);
            assert(t < MAX_DELTA_SEQ);
            assert(before.slots[t as int] is Some);
            let head: Option<Vec<u8>> = self.slots.remove(0);
            self.slots.push(None);
            assert(bytes_view(head) == mid.slots[0]);
            match head {
                Some(bytes) => {
                    append_bytes(&mut self.readable, bytes.as_slice());
                },
                None => {},
            }
            self.next_seq = self.next_seq.wrapping_add(1);
            proof {
                lemma_seq_after_step(before.next_seq, t as int);
                assert forall|d: int| 0 <= d < MAX_DELTA_SEQ implies self@.slots[d] == shifted(
                    before.slots,
                    t + 1,
                )[d] by {
                    if d + 1 < MAX_DELTA_SEQ {
                        assert(self.slots@[d] == mid_slots[d + 1]);
                        assert(mid.slots[d + 1] == shifted(before.slots, t as int)[d + 1]);
                    }
                }
                assert(self@.slots =~= shifted(before.slots, t + 1));
                assert(self@.readable =~= before.readable + payload@ + drained(
                    before.slots,
                    1,
                    t + 1,
                ));
            }
            t = t + 1;
        }
        proof {
            assert(self@.slots[0] == shifted(before.slots, t as int)[0]);
            lemma_run_end(before.slots, 1, t as int);
        }
    }

    /// What to acknowledge: the sequence number of the last packet delivered
    /// in order and, where packets wait behind a gap, the selective
    /// acknowledgment that marks them. Bit `i` of it stands for the packet
    /// `i + 1` after the next expected one.
    pub fn ack_state(&self) -> (r: (u16, Option<Vec<u8>>))
        requires
            self.wf(),
        ensures
            r.0 == self@.ack_nr(),
            self@.marked_by(bytes_view(r.1)),
    {
        let ack_nr: u16 = self.next_seq.wrapping_sub(1);
        proof {
            if self.next_seq == 0 {
                lemma_fundamental_div_mod_converse(-1, 0x1_0000, -1, 0xFFFF);
            } else {
                lemma_fundamental_div_mod_converse(
                    self.next_seq as int - 1,
                    0x1_0000,
                    0,
                    self.next_seq as int - 1,
                );
            }
        }
        let mut mask: Vec<u8> = Vec::new();
        mask.push(0u8);
        mask.push(0u8);
        mask.push(0u8);
        mask.push(0u8);
        let mut any: bool = false;
        let mut i: usize = 0;
        proof {
            lemma_with_bit(0, 0, 0);
            assert forall|j: int| 0 <= j < 8 * SELECTIVE_ACK_LEN implies !selective_ack_bit(
                mask@,
                j,
            ) by {
                lemma_with_bit(0, 0, (j % 8) as u8);
            }
        }
        while i + 1 < MAX_DELTA_SEQ
            invariant
                self.wf(),
                i + 1 <= MAX_DELTA_SEQ,
                mask@.len() == SELECTIVE_ACK_LEN,
                forall|j: int|
                    0 <= j < i ==> #[trigger] selective_ack_bit(mask@, j) == self@.holds(j + 1),
                forall|j: int|
                    i <= j < 8 * SELECTIVE_ACK_LEN ==> !#[trigger] selective_ack_bit(mask@, j),
                any <==> exists|d: int| 1 <= d <= i && #[trigger] self@.holds(d),
            decreases MAX_DELTA_SEQ - i,
        {
            if self.slots[i + 1].is_some() {
                let b: usize = i / 8;
                let k: u8 = (i % 8) as u8;
                let ghost old_mask = mask@;
                let byte: u8 = mask[b];
                mask.set(b, set_bit(byte, k));
                any = true;
                proof {
                    assert(self@.holds(i + 1));
                    assert forall|j: int|
                        0 <= j < 8 * SELECTIVE_ACK_LEN implies #[trigger] selective_ack_bit(
                        mask@,
                        j,
                    ) == (j == i || selective_ack_bit(old_mask, j)) by {
                        if j / 8 == b as int {
                            lemma_with_bit(byte, k, (j % 8) as u8);
                        }
                    }
                }
            } else {
                assert(!self@.holds(i + 1));
                assert(!selective_ack_bit(mask@, i as int));
            }
            i = i + 1;
        }
        proof {
            assert forall|j: int|
                0 <= j < 8 * SELECTIVE_ACK_LEN implies #[trigger] selective_ack_bit(mask@, j)
                == self@.holds(j + 1) by {}
            if self@.has_pending() {
                let d = choose|d: int| self@.holds(d);
                assert(1 <= d <= i && self@.holds(d));
            }
        }
        if any {
            (ack_nr, Some(mask))
        } else {
            (ack_nr, None)
        }
    }

    /// Sequence number of the next packet to deliver.
    pub fn next_seq(&self) -> (r: u16)
        ensures
            r == self@.next_seq,
    {
        self.next_seq
    }

    /// Number of bytes delivered in order and not read yet.
    pub fn readable_len(&self) -> (r: usize)
        ensures
            r == self@.readable.len(),
    {
        self.readable.len()
    }

    /// Hands the application up to `max` of the bytes delivered in order,
    /// oldest first, and forgets them.
    pub fn read(&mut self, max: usize) -> (bytes: Vec<u8>)
        requires
            old(self).wf(),
        ensures
            final(self).wf(),
            bytes@.len() == if max <= old(self)@.readable.len() {
                max as int
            } else {
                old(self)@.readable.len() as int
            },
            bytes@ == old(self)@.readable.subrange(0, bytes@.len() as int),
            final(self)@ == old(self)@.consume(bytes@.len() as int),
    {
        let n: usize = if max <= self.readable.len() {
            max
        } else {
            self.readable.len()
        };
        let mut rest: Vec<u8> = self.readable.split_off(n);
        std::mem::swap(&mut self.readable, &mut rest);
        rest
    }
}

/// An arrival keeps the invariant of the queue, never takes back or
/// reorders what was delivered, and moves the next expected sequence number
/// forward by the number of packets delivered, if at all.
pub proof fn lemma_accept_moves_forward(q: InQueueView, seq_nr: u16, payload: Seq<u8>) -> (r: int)
    requires
        q.wf(),
    ensures
        q.accept(seq_nr, payload).wf(),
        0 <= r <= MAX_DELTA_SEQ,
        q.accept(seq_nr, payload).next_seq == seq_after(q.next_seq, r),
        q.readable.is_prefix_of(q.accept(seq_nr, payload).readable),
        r == 0 ==> q.accept(seq_nr, payload).readable == q.readable,
{
    lemma_seq_after_step(q.next_seq, 0);
    match q.classify(seq_nr) {
        Arrival::InOrder => {
            lemma_run_end_bounds(q.slots, 1);
            let r = run_end(q.slots, 1);
            assert(q.accept(seq_nr, payload).readable == q.readable + (payload + drained(
                q.slots,
                1,
                r,
            )));
            r
        },
        _ => 0,
    }
}

/// A queue has one selective acknowledgment only: what `ack_state` gives is
/// determined by the queue.
pub proof fn lemma_selective_ack_unique(q: InQueueView, a: Option<Seq<u8>>, b: Option<Seq<u8>>)
    requires
        q.marked_by(a),
        q.marked_by(b),
    ensures
        a == b,
{
    if a is Some {
        let ma = a.unwrap();
        let mb = b.unwrap();
        assert forall|j: int| 0 <= j < SELECTIVE_ACK_LEN implies ma[j] == mb[j] by {
            assert forall|k: u8| k < 8 implies bit_is_set(ma[j], k) == bit_is_set(mb[j], k) by {
                let i: int = 8 * j + k;
                assert(i / 8 == j && i % 8 == k);
                assert(selective_ack_bit(ma, i) == q.holds(i + 1));
                assert(selective_ack_bit(mb, i) == q.holds(i + 1));
            }
            lemma_byte_by_bits(ma[j], mb[j]);
        }
        assert(ma =~= mb);
    }
}

// ---------------------------------------------------------------------------
// Reassembly
// ---------------------------------------------------------------------------

/// The chunks of `data`, one after the other.
pub open spec fn joined(data: Seq<Seq<u8>>) -> Seq<u8>
    decreases data.len(),
{
    if data.len() == 0 {
        Seq::empty()
    } else {
        joined(data.drop_last()) + data.last()
    }
}

/// The queue that expected `base` first, after packets of the stream `data`
/// have arrived: first the packet that carries `data[order[0]]`, then the one
/// that carries `data[order[1]]`, and so on. The packet that carries
/// `data[i]` has the sequence number `i` after `base`.
pub open spec fn after_arrivals(base: u16, data: Seq<Seq<u8>>, order: Seq<int>) -> InQueueView
    decreases order.len(),
{
    if order.len() == 0 {
        InQueueView::empty(base)
    } else {
        let i = order.last();
        after_arrivals(base, data, order.drop_last()).accept(seq_after(base, i), data[i])
    }
}

/// Every entry of `order` is the index of a chunk of `data`.
pub open spec fn arrivals_in_range(data: Seq<Seq<u8>>, order: Seq<int>) -> bool {
    forall|j: int| 0 <= j < order.len() ==> 0 <= #[trigger] order[j] < data.len()
}

/// The queue `q` has delivered the first `k` chunks of the stream `data`
/// that starts at `base`, and what waits in it are chunks of the stream in
/// their places.
spec fn in_step(q: InQueueView, base: u16, data: Seq<Seq<u8>>, k: int) -> bool {
    &&& q.wf()
    &&& 0 <= k <= data.len()
    &&& q.next_seq == seq_after(base, k)
    &&& q.readable == joined(data.subrange(0, k))
    &&& forall|d: int|
        1 <= d < MAX_DELTA_SEQ && (#[trigger] q.slots[d]) is Some ==> k + d < data.len()
            && q.slots[d] == Some(data[k + d])
}

/// Chunk `j` was delivered by `q` or waits in it.
spec fn got(q: InQueueView, k: int, j: int) -> bool {
    j < k || (j - k < MAX_DELTA_SEQ && q.slots[j - k] is Some)
}

/// Stepping on from a later sequence number is stepping further from the
/// first.
pub proof fn lemma_seq_after_sum(base: u16, a: int, b: int)
    ensures
        seq_after(seq_after(base, a), b) == seq_after(base, a + b),
{
    let m: int = 0x1_0000;
    let x: int = base + a;
    let q: int = x / m;
    let r: int = x % m;
    vstd::arithmetic::div_mod::lemma_fundamental_div_mod(x, m);
    assert(x + b == q * m + (r + b)) by (nonlinear_arith)
        requires
            x == m * q + r,
    ;
    lemma_mod_multiples_vanish(q, r + b, m);
}

proof fn lemma_seq_distance(base: u16, k: int, i: int)
    ensures
        wrapping_distance(seq_after(base, k) as u32, seq_after(base, i) as u32, SEQ_MASK) == (i
            - k) % 0x1_0000,
{
    let m: int = 0x1_0000;
    lemma_seq_mask();
    let a = seq_after(base, k);
    let b = seq_after(base, i);
    lemma_distance_is_modular(a as u32, b as u32, 16);
    let qa: int = (base + k) / m;
    let qb: int = (base + i) / m;
    vstd::arithmetic::div_mod::lemma_fundamental_div_mod(base + k, m);
    vstd::arithmetic::div_mod::lemma_fundamental_div_mod(base + i, m);
    assert(b as int - a as int == (qa - qb) * m + (i - k)) by (nonlinear_arith)
        requires
            base + k == m * qa + a,
            base + i == m * qb + b,
    ;
    lemma_mod_multiples_vanish(qa - qb, i - k, m);
    assert(modular_distance(a as int, b as int, m) == (i - k) % m);
}

/// Where a chunk of the stream stands for a queue that has delivered the
/// first `k` chunks.
proof fn lemma_classify(q: InQueueView, base: u16, k: int, i: int)
    requires
        q.wf(),
        q.next_seq == seq_after(base, k),
        -0x8000 < i - k < 0x8000,
    ensures
        i < k ==> q.classify(seq_after(base, i)) == Arrival::Old,
        i == k ==> q.classify(seq_after(base, i)) == Arrival::InOrder,
        k < i && i - k < MAX_DELTA_SEQ ==> q.classify(seq_after(base, i)) == Arrival::Ahead(i - k),
        k < i && i - k >= MAX_DELTA_SEQ ==> q.classify(seq_after(base, i)) == Arrival::TooFar,
{
    let m: int = 0x1_0000;
    lemma_seq_distance(base, k, i);
    lemma_seq_distance(base, i, k);
    if i < k {
        lemma_fundamental_div_mod_converse(k - i, m, 0, k - i);
        lemma_fundamental_div_mod_converse(i - k, m, -1, i - k + m);
    } else if i == k {
        lemma_fundamental_div_mod_converse(0, m, 0, 0);
    } else {
        lemma_fundamental_div_mod_converse(i - k, m, 0, i - k);
        lemma_fundamental_div_mod_converse(k - i, m, -1, k - i + m);
    }
}

proof fn lemma_joined_run(q: InQueueView, data: Seq<Seq<u8>>, k: int, t: int)
    requires
        0 <= k < data.len(),
        1 <= t,
        k + t <= data.len(),
        t <= q.slots.len(),
        forall|d: int| 1 <= d < t ==> #[trigger] q.slots[d] == Some(data[k + d]),
    ensures
        joined(data.subrange(0, k)) + data[k] + drained(q.slots, 1, t) == joined(
            data.subrange(0, k + t),
        ),
    decreases t,
{
    let upto = data.subrange(0, k + t);
    assert(upto.drop_last() =~= data.subrange(0, k + t - 1));
    assert(upto.last() == data[k + t - 1]);
    if t == 1 {
        assert(drained(q.slots, 1, 1) =~= Seq::<u8>::empty());
        assert(joined(data.subrange(0, k)) + data[k] + drained(q.slots, 1, t) =~= joined(
            data.subrange(0, k),
        ) + data[k]);
    } else {
        lemma_joined_run(q, data, k, t - 1);
        assert(q.slots[t - 1] == Some(data[k + t - 1]));
        assert(joined(data.subrange(0, k)) + data[k] + drained(q.slots, 1, t) =~= (joined(
            data.subrange(0, k),
        ) + data[k] + drained(q.slots, 1, t - 1)) + data[k + t - 1]);
    }
}

/// One arrival keeps the queue in step with the stream.
proof fn lemma_step(q: InQueueView, base: u16, data: Seq<Seq<u8>>, k: int, i: int) -> (k2: int)
    requires
        in_step(q, base, data, k),
        data.len() < 0x8000,
        0 <= i < data.len(),
    ensures
        in_step(q.accept(seq_after(base, i), data[i]), base, data, k2),
        k <= k2,
        i == k ==> k < k2,
        i < k ==> k2 == k,
        i - k < MAX_DELTA_SEQ ==> got(q.accept(seq_after(base, i), data[i]), k2, i),
        forall|j: int| got(q, k, j) ==> got(q.accept(seq_after(base, i), data[i]), k2, j),
{
    let after = q.accept(seq_after(base, i), data[i]);
    lemma_classify(q, base, k, i);
    if i == k {
        let r = run_end(q.slots, 1);
        lemma_run_end_bounds(q.slots, 1);
        if r > 1 {
            assert(q.slots[r - 1] is Some);
        }
        assert(k + r <= data.len());
        lemma_seq_after_sum(base, k, r);
        assert forall|d: int| 1 <= d < r implies #[trigger] q.slots[d] == Some(data[k + d]) by {
            assert(q.slots[d] is Some);
        }
        lemma_joined_run(q, data, k, r);
        assert forall|d: int| 1 <= d < MAX_DELTA_SEQ && (#[trigger] after.slots[d]) is Some implies k
            + r + d < data.len() && after.slots[d] == Some(data[k + r + d]) by {
            assert(q.slots[d + r] is Some);
        }
        assert forall|j: int| got(q, k, j) implies got(after, k + r, j) by {
            if j >= k + r {
                assert(q.slots[j - k] is Some);
                assert(after.slots[j - k - r] == q.slots[j - k]);
            }
        }
        k + r
    } else if k < i && i - k < MAX_DELTA_SEQ {
        let d = i - k;
        if q.slots[d] is None {
            assert forall|e: int|
                1 <= e < MAX_DELTA_SEQ && (#[trigger] after.slots[e]) is Some implies k + e
                < data.len() && after.slots[e] == Some(data[k + e]) by {
                if e != d {
                    assert(q.slots[e] is Some);
                }
            }
            assert forall|j: int| got(q, k, j) implies got(after, k, j) by {
                if j >= k {
                    assert(q.slots[j - k] is Some);
                }
            }
        }
        k
    } else {
        k
    }
}

/// A packet that was delivered already changes nothing when it arrives
/// again, whatever it carries.
proof fn lemma_repeat(q: InQueueView, base: u16, k: int, i: int, payload: Seq<u8>)
    requires
        q.wf(),
        q.next_seq == seq_after(base, k),
        0 <= i < k < 0x8000,
    ensures
        q.accept(seq_after(base, i), payload) == q,
{
    lemma_classify(q, base, k, i);
}

proof fn lemma_arrivals(base: u16, data: Seq<Seq<u8>>, order: Seq<int>) -> (k: int)
    requires
        data.len() < 0x8000,
        arrivals_in_range(data, order),
    ensures
        in_step(after_arrivals(base, data, order), base, data, k),
        data.len() <= MAX_DELTA_SEQ ==> forall|j: int|
            0 <= j < order.len() ==> got(after_arrivals(base, data, order), k, #[trigger] order[j]),
    decreases order.len(),
{
    if order.len() == 0 {
        let q = InQueueView::empty(base);
        lemma_seq_after_step(base, 0);
        assert(data.subrange(0, 0) =~= Seq::<Seq<u8>>::empty());
        assert(joined(data.subrange(0, 0)) =~= Seq::<u8>::empty());
        0
    } else {
        let earlier = order.drop_last();
        let i = order.last();
        assert(i == order[order.len() - 1]);
        assert forall|j: int| 0 <= j < earlier.len() implies 0 <= #[trigger] earlier[j]
            < data.len() by {
            assert(earlier[j] == order[j]);
        }
        let k1 = lemma_arrivals(base, data, earlier);
        let q = after_arrivals(base, data, earlier);
        let k2 = lemma_step(q, base, data, k1, i);
        let after = after_arrivals(base, data, order);
        assert(after == q.accept(seq_after(base, i), data[i]));
        if data.len() <= MAX_DELTA_SEQ {
            assert forall|j: int| 0 <= j < order.len() implies got(after, k2, #[trigger] order[j]) by {
                if j < earlier.len() {
                    assert(earlier[j] == order[j]);
                    assert(got(q, k1, earlier[j]));
                }
            }
        }
        k2
    }
}

/// Whatever arrives of a stream, in whatever order and however often, the
/// bytes that the queue has delivered are the first chunks of the stream,
/// one after the other as they were sent; and a packet that was delivered
/// already changes nothing when it arrives again.
pub proof fn lemma_delivery_in_order(base: u16, data: Seq<Seq<u8>>, order: Seq<int>) -> (k: int)
    requires
        data.len() < 0x8000,
        arrivals_in_range(data, order),
    ensures
        0 <= k <= data.len(),
        after_arrivals(base, data, order).wf(),
        after_arrivals(base, data, order).next_seq == seq_after(base, k),
        after_arrivals(base, data, order).readable == joined(data.subrange(0, k)),
        forall|i: int, payload: Seq<u8>|
            0 <= i < k ==> #[trigger] after_arrivals(base, data, order).accept(
                seq_after(base, i),
                payload,
            ) == after_arrivals(base, data, order),
{
    let k = lemma_arrivals(base, data, order);
    let after = after_arrivals(base, data, order);
    assert forall|i: int, payload: Seq<u8>| 0 <= i < k implies #[trigger] after.accept(
        seq_after(base, i),
        payload,
    ) == after by {
        lemma_repeat(after, base, k, i, payload);
    }
    k
}

/// Once every packet of a stream of up to `MAX_DELTA_SEQ` packets has
/// arrived at least once, in whatever order, the queue has delivered the
/// whole stream as it was sent, and nothing waits in it.
pub proof fn lemma_reassembly(base: u16, data: Seq<Seq<u8>>, order: Seq<int>)
    requires
        data.len() <= MAX_DELTA_SEQ,
        arrivals_in_range(data, order),
        forall|i: int| 0 <= i < data.len() ==> order.contains(i),
    ensures
        after_arrivals(base, data, order).readable == joined(data),
        after_arrivals(base, data, order).next_seq == seq_after(base, data.len() as int),
        !after_arrivals(base, data, order).has_pending(),
{
    let k = lemma_arrivals(base, data, order);
    let after = after_arrivals(base, data, order);
    if k < data.len() {
        assert(order.contains(k));
        let j = choose|j: int| 0 <= j < order.len() && order[j] == k;
        assert(got(after, k, order[j]));
    }
    assert(data.subrange(0, data.len() as int) =~= data);
    assert forall|d: int| !after.holds(d) by {
        if 1 <= d < MAX_DELTA_SEQ {
            if after.slots[d] is Some {
                assert(k + d < data.len());
            }
        }
    }
}

/// However the packets of a stream arrived before, once they have all
/// arrived again one after the other in the order of the stream, the queue
/// has delivered the whole stream as it was sent.
pub proof fn lemma_redelivery_completes(base: u16, data: Seq<Seq<u8>>, order: Seq<int>)
    requires
        data.len() < 0x8000,
        arrivals_in_range(data, order),
    ensures
        arrivals_in_range(data, order + Seq::new(data.len(), |i: int| i)),
        after_arrivals(base, data, order + Seq::new(data.len(), |i: int| i)).readable == joined(
            data,
        ),
        after_arrivals(base, data, order + Seq::new(data.len(), |i: int| i)).next_seq
            == seq_after(base, data.len() as int),
{
    let sweep = Seq::new(data.len(), |i: int| i);
    let k = lemma_sweep(base, data, order, data.len() as int);
    assert(sweep.subrange(0, data.len() as int) =~= sweep);
    assert(data.subrange(0, data.len() as int) =~= data);
}

proof fn lemma_sweep(base: u16, data: Seq<Seq<u8>>, order: Seq<int>, n: int) -> (k: int)
    requires
        data.len() < 0x8000,
        arrivals_in_range(data, order),
        0 <= n <= data.len(),
    ensures
        arrivals_in_range(data, order + Seq::new(data.len(), |i: int| i).subrange(0, n)),
        in_step(
            after_arrivals(base, data, order + Seq::new(data.len(), |i: int| i).subrange(0, n)),
            base,
            data,
            k,
        ),
        n <= k,
    decreases n,
{
    let sweep = Seq::new(data.len(), |i: int| i);
    let all = order + sweep.subrange(0, n);
    if n == 0 {
        assert(all =~= order);
        lemma_arrivals(base, data, order)
    } else {
        let earlier = order + sweep.subrange(0, n - 1);
        let k1 = lemma_sweep(base, data, order, n - 1);
        assert(all.drop_last() =~= earlier);
        assert(all.last() == n - 1);
        assert forall|j: int| 0 <= j < all.len() implies 0 <= #[trigger] all[j] < data.len() by {
            if j < earlier.len() {
                assert(all[j] == earlier[j]);
            }
        }
        let q = after_arrivals(base, data, earlier);
        lemma_step(q, base, data, k1, n - 1)
    }
}

} // verus!
