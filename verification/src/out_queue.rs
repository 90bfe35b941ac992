//! The outbound queue: holds what the application wrote as packets until
//! the peer acknowledges them, and decides what to transmit and when.
//!
//! All times are microseconds on a clock of the caller's that does not run
//! backwards.

use crate::congestion::{saturating_sum, Congestion, CongestionView, Tuning, MAX_PAYLOAD};
use crate::in_queue::{selective_ack_bit, seq_after, test_bit};
use crate::packet::{bytes_view, Packet, PacketType, PacketView};
use crate::util::{precedes, wrapping_distance, wrapping_lt, SEQ_MASK};
use crate::{Failure, MAX_DELTA_SEQ};
use vstd::arithmetic::div_mod::lemma_fundamental_div_mod_converse;
use vstd::prelude::*;
use vstd::slice::{slice_subrange, slice_to_vec};

verus! {

/// How often in a row retransmission timeouts may run out before the
/// connection counts as failed.
pub const MAX_RETRIES: u32 = 5;

// ---------------------------------------------------------------------------
// The queue as a mathematical value
// ---------------------------------------------------------------------------

/// A packet that waits for its acknowledgment, as a mathematical value.
pub struct EntryView {
    /// Sequence number of the packet.
    pub seq_nr: u16,
    /// Type of the packet: data, or the packet that opens or ends the stream.
    pub ty: PacketType,
    /// The bytes that it carries.
    pub payload: Seq<u8>,
    /// How often it was transmitted.
    pub transmissions: u32,
    /// When it was last transmitted.
    pub last_sent: u64,
    /// When its retransmission timeout runs out.
    pub deadline: u64,
    /// It is to be transmitted at the next opportunity.
    pub need_send: bool,
    /// How often acknowledgments of later packets have passed it over since
    /// it was last marked.
    pub skipped: u32,
}

/// `n + 1`, or `n` where that is the largest 32-bit number.
pub open spec fn bumped(n: u32) -> u32 {
    if n < u32::MAX {
        (n + 1) as u32
    } else {
        n
    }
}

/// The time from `then` to `now`, 0 if `then` is later.
pub open spec fn elapsed(now: u64, then: u64) -> u64 {
    if now >= then {
        (now - then) as u64
    } else {
        0
    }
}

impl EntryView {
    /// A packet that was never transmitted.
    pub open spec fn fresh(seq_nr: u16, ty: PacketType, payload: Seq<u8>) -> EntryView {
        EntryView {
            seq_nr,
            ty,
            payload,
            transmissions: 0,
            last_sent: 0,
            deadline: 0,
            need_send: true,
            skipped: 0,
        }
    }

    /// The packet was transmitted and is not marked to be sent again.
    pub open spec fn in_flight(self) -> bool {
        self.transmissions > 0 && !self.need_send
    }

    /// An acknowledgment covers the packet: the packet was transmitted, and
    /// it is at or behind `ack_nr`, or the selective acknowledgment marks
    /// it. Bit `i` of the selective acknowledgment stands for the packet
    /// `i + 2` after `ack_nr`.
    pub open spec fn covered_by(self, ack_nr: u16, mask: Option<Seq<u8>>) -> bool {
        let d = wrapping_distance(ack_nr as u32, self.seq_nr as u32, SEQ_MASK);
        &&& self.transmissions > 0
        &&& {
            ||| !precedes(ack_nr as u32, self.seq_nr as u32, SEQ_MASK)
            ||| mask matches Some(m) && d >= 2 && selective_ack_bit(m, d - 2)
        }
    }

    /// The packet after it was transmitted at `now` with the retransmission
    /// timeout `timeout`.
    pub open spec fn sent(self, now: u64, timeout: u64) -> EntryView {
        EntryView {
            transmissions: bumped(self.transmissions),
            last_sent: now,
            deadline: saturating_sum(now, timeout),
            need_send: false,
            ..self
        }
    }

    /// The retransmission timeout of the packet has run out at `now`.
    pub open spec fn expired(self, now: u64) -> bool {
        self.in_flight() && self.deadline <= now
    }

    /// The packet after its retransmission timeout was checked at `now`:
    /// marked to be sent again where the timeout has run out.
    pub open spec fn checked(self, now: u64) -> EntryView {
        if self.expired(now) {
            EntryView { need_send: true, ..self }
        } else {
            self
        }
    }

    /// The packet after an acknowledgment passed it over. Where it is in
    /// flight this is counted, and once it has happened more than
    /// `threshold` times the packet is marked to be sent again at once.
    pub open spec fn passed_over(self, threshold: u32) -> EntryView {
        if !self.in_flight() {
            self
        } else if self.skipped >= threshold {
            EntryView { need_send: true, skipped: 0, ..self }
        } else {
            EntryView { skipped: (self.skipped + 1) as u32, ..self }
        }
    }
}

/// The payload bytes of the packets that are in flight.
pub open spec fn bytes_in_flight(entries: Seq<EntryView>) -> int
    decreases entries.len(),
{
    if entries.len() == 0 {
        0
    } else {
        bytes_in_flight(entries.drop_last()) + if entries.last().in_flight() {
            entries.last().payload.len() as int
        } else {
            0
        }
    }
}

/// Some packet is in flight.
pub open spec fn any_in_flight(entries: Seq<EntryView>) -> bool {
    exists|i: int| 0 <= i < entries.len() && (#[trigger] entries[i]).in_flight()
}

/// The first place from `from` on of a packet that is to be sent, or the
/// length of `entries`.
pub open spec fn first_pending(entries: Seq<EntryView>, from: int) -> int
    decreases entries.len() - from,
{
    if from < 0 || from >= entries.len() {
        entries.len() as int
    } else if entries[from].need_send {
        from
    } else {
        first_pending(entries, from + 1)
    }
}

/// The last place of a packet that the acknowledgment covers, or -1.
pub open spec fn highest_covered(entries: Seq<EntryView>, ack_nr: u16, mask: Option<Seq<u8>>)
    -> int
    decreases entries.len(),
{
    if entries.len() == 0 {
        -1
    } else if entries.last().covered_by(ack_nr, mask) {
        entries.len() - 1
    } else {
        highest_covered(entries.drop_last(), ack_nr, mask)
    }
}

/// The first `upto` packets without those that the acknowledgment covers.
/// A packet before the place `top`, and the first packet where `first` is
/// set, was passed over.
pub open spec fn retained(
    entries: Seq<EntryView>,
    upto: int,
    ack_nr: u16,
    mask: Option<Seq<u8>>,
    top: int,
    first: bool,
    threshold: u32,
) -> Seq<EntryView>
    decreases upto,
{
    if upto <= 0 {
        Seq::empty()
    } else {
        let rest = retained(entries, upto - 1, ack_nr, mask, top, first, threshold);
        let e = entries[upto - 1];
        if e.covered_by(ack_nr, mask) {
            rest
        } else if upto - 1 < top || (upto == 1 && first) {
            rest.push(e.passed_over(threshold))
        } else {
            rest.push(e)
        }
    }
}

/// The controller after the round trips of those of the first `upto`
/// packets that the acknowledgment covers and that were transmitted once
/// only: a packet that was sent again says nothing of the round-trip time.
pub open spec fn measured(
    c: CongestionView,
    entries: Seq<EntryView>,
    upto: int,
    ack_nr: u16,
    mask: Option<Seq<u8>>,
    now: u64,
) -> CongestionView
    decreases upto,
{
    if upto <= 0 {
        c
    } else {
        let before = measured(c, entries, upto - 1, ack_nr, mask, now);
        let e = entries[upto - 1];
        if e.covered_by(ack_nr, mask) && e.transmissions == 1 {
            before.with_rtt_sample(elapsed(now, e.last_sent))
        } else {
            before
        }
    }
}

/// The number of the first `upto` packets whose timeout has run out.
pub open spec fn expired_count(entries: Seq<EntryView>, upto: int, now: u64) -> int
    decreases upto,
{
    if upto <= 0 {
        0
    } else {
        expired_count(entries, upto - 1, now) + if entries[upto - 1].expired(now) {
            1int
        } else {
            0int
        }
    }
}

/// The number of bytes of `n` that a queue with room for `room` packets
/// takes.
pub open spec fn accepted_len(n: int, room: int) -> int {
    if n <= room * MAX_PAYLOAD {
        n
    } else {
        room * MAX_PAYLOAD
    }
}

/// The number of packets that `n` bytes make.
pub open spec fn packet_count(n: int) -> int {
    (n + MAX_PAYLOAD - 1) / (MAX_PAYLOAD as int)
}

/// Packet `j` of the first `n` bytes of `bytes`.
pub open spec fn segment(bytes: Seq<u8>, j: int, n: int) -> Seq<u8> {
    bytes.subrange(
        j * MAX_PAYLOAD,
        if (j + 1) * MAX_PAYLOAD <= n {
            (j + 1) * MAX_PAYLOAD
        } else {
            n
        },
    )
}

/// The outbound queue as a mathematical value.
pub struct OutQueueView {
    /// The packets that are not acknowledged, in the order of the stream.
    pub entries: Seq<EntryView>,
    /// Sequence number of the next packet to be made.
    pub next_seq: u16,
    /// The connection identifier that outgoing packets carry.
    pub connection_id: u16,
    /// How often in a row retransmission timeouts have run out.
    pub retries: u32,
    /// The congestion controller.
    pub congestion: CongestionView,
}

impl OutQueueView {
    /// The invariant of the queue: no more than `MAX_DELTA_SEQ` packets wait
    /// for their acknowledgment, none carries more than `MAX_PAYLOAD` bytes,
    /// and the controller keeps its bounds.
    pub open spec fn wf(self) -> bool {
        &&& self.entries.len() <= MAX_DELTA_SEQ
        &&& forall|i: int|
            0 <= i < self.entries.len() ==> (#[trigger] self.entries[i]).payload.len()
                <= MAX_PAYLOAD
        &&& self.congestion.wf()
    }

    /// The empty queue of a new connection.
    pub open spec fn initial(connection_id: u16, first_seq: u16, tuning: Tuning) -> OutQueueView {
        OutQueueView {
            entries: Seq::empty(),
            next_seq: first_seq,
            connection_id,
            retries: 0,
            congestion: CongestionView::initial(tuning),
        }
    }

    /// The queue after one more packet was appended.
    pub open spec fn enqueued(self, ty: PacketType, payload: Seq<u8>) -> OutQueueView {
        OutQueueView {
            entries: self.entries.push(EntryView::fresh(self.next_seq, ty, payload)),
            next_seq: seq_after(self.next_seq, 1),
            ..self
        }
    }

    /// The queue after it took as many of `bytes` as it has room for, as
    /// data packets of up to `MAX_PAYLOAD` bytes each.
    pub open spec fn pushed(self, bytes: Seq<u8>) -> OutQueueView {
        let n = accepted_len(bytes.len() as int, MAX_DELTA_SEQ - self.entries.len());
        let count = packet_count(n);
        OutQueueView {
            entries: self.entries + Seq::new(
                count as nat,
                |j: int|
                    EntryView::fresh(
                        seq_after(self.next_seq, j),
                        PacketType::Data,
                        segment(bytes, j, n),
                    ),
            ),
            next_seq: seq_after(self.next_seq, count),
            ..self
        }
    }

    /// The queue after an acknowledgment arrived at `now`.
    ///
    /// The packets that the acknowledgment covers leave the queue, and those
    /// of them that were transmitted once only give a round-trip sample
    /// each. Every packet that stays behind one that left was passed over;
    /// so was the first packet, where the acknowledgment came in a packet of
    /// its own (`bare`), covers nothing and names the packet just before it.
    /// If anything left, the count of timeouts in a row starts anew. The
    /// controller takes the peer's window and, unless it is 0, the delay
    /// that the peer reported; the window counts as acknowledged in full
    /// where something left and nothing stays in flight.
    pub open spec fn acked(
        self,
        ack_nr: u16,
        mask: Option<Seq<u8>>,
        window_size: u32,
        timestamp_difference: u32,
        bare: bool,
        now: u64,
    ) -> OutQueueView {
        let n = self.entries.len() as int;
        let top = highest_covered(self.entries, ack_nr, mask);
        let first = bare && top < 0 && n > 0 && self.entries[0].seq_nr == seq_after(ack_nr, 1);
        let kept = retained(
            self.entries,
            n,
            ack_nr,
            mask,
            top,
            first,
            self.congestion.tuning.fast_resend_threshold,
        );
        let c1 = measured(self.congestion, self.entries, n, ack_nr, mask, now);
        let c2 = c1.with_peer_window(window_size);
        let c3 = if timestamp_difference != 0 {
            c2.with_delay_sample(timestamp_difference, top >= 0 && !any_in_flight(kept), now)
        } else {
            c2
        };
        OutQueueView {
            entries: kept,
            retries: if top >= 0 {
                0
            } else {
                self.retries
            },
            congestion: c3,
            ..self
        }
    }

    /// The place of the packet to transmit next: the first packet that is to
    /// be sent, if its payload fits into the congestion window beside the
    /// bytes in flight.
    pub open spec fn sendable(self) -> Option<int> {
        let i = first_pending(self.entries, 0);
        if i < self.entries.len() && bytes_in_flight(self.entries)
            + self.entries[i].payload.len() <= self.congestion.window {
            Some(i)
        } else {
            None
        }
    }

    /// The queue after the packet at `i` was transmitted at `now`.
    pub open spec fn after_send(self, i: int, now: u64) -> OutQueueView {
        OutQueueView {
            entries: self.entries.update(i, self.entries[i].sent(now, self.congestion.timeout)),
            ..self
        }
    }

    /// The packet made of the entry at `i` at `now`. It carries no
    /// acknowledgment yet.
    pub open spec fn outgoing(self, i: int, now: u64) -> PacketView {
        PacketView {
            ty: self.entries[i].ty,
            connection_id: self.connection_id,
            timestamp: (now % 0x1_0000_0000) as u32,
            timestamp_difference: 0,
            window_size: 0,
            seq_nr: self.entries[i].seq_nr,
            ack_nr: 0,
            selective_ack: None,
            payload: self.entries[i].payload,
        }
    }

    /// The queue after the retransmission timeouts were checked at `now`.
    /// Every packet whose timeout has run out is marked to be sent again.
    /// If there is one, this counts as one more timeout in a row, the
    /// window falls to one packet and the timeout doubles.
    pub open spec fn checked(self, now: u64) -> OutQueueView {
        if expired_count(self.entries, self.entries.len() as int, now) == 0 {
            self
        } else {
            OutQueueView {
                entries: Seq::new(self.entries.len(), |i: int| self.entries[i].checked(now)),
                retries: bumped(self.retries),
                congestion: self.congestion.after_timeout(),
                ..self
            }
        }
    }
}

/// What happens to an outbound queue.
pub enum QueueEvent {
    /// The application writes these bytes.
    Push(Seq<u8>),
    /// The packet of this type that opens or ends the stream is to be sent.
    Control(PacketType),
    /// An acknowledgment arrives: its number, its selective acknowledgment,
    /// the peer's window, the delay that the peer reports, whether it came
    /// in a packet of its own, and the time.
    Ack(u16, Option<Seq<u8>>, u32, u32, bool, u64),
    /// There is an opportunity to send at this time.
    Send(u64),
    /// The retransmission timeouts are checked at this time.
    Check(u64),
}

impl OutQueueView {
    /// A write is told to wait: there are bytes and `MAX_DELTA_SEQ` packets
    /// wait for their acknowledgment already.
    pub open spec fn backpressure(self, bytes: Seq<u8>) -> bool {
        bytes.len() > 0 && self.entries.len() == MAX_DELTA_SEQ
    }

    /// The queue after `event`.
    pub open spec fn after(self, event: QueueEvent) -> OutQueueView {
        match event {
            QueueEvent::Push(bytes) => if self.backpressure(bytes) {
                self
            } else {
                self.pushed(bytes)
            },
            QueueEvent::Control(ty) => if self.entries.len() < MAX_DELTA_SEQ {
                self.enqueued(ty, Seq::empty())
            } else {
                self
            },
            QueueEvent::Ack(ack_nr, mask, window_size, timestamp_difference, bare, now) => self.acked(
                ack_nr,
                mask,
                window_size,
                timestamp_difference,
                bare,
                now,
            ),
            QueueEvent::Send(now) => match self.sendable() {
                Some(i) => self.after_send(i, now),
                None => self,
            },
            QueueEvent::Check(now) => self.checked(now),
        }
    }

    /// The queue after the events of `events`, one after the other.
    pub open spec fn after_all(self, events: Seq<QueueEvent>) -> OutQueueView
        decreases events.len(),
    {
        if events.len() == 0 {
            self
        } else {
            self.after_all(events.drop_last()).after(events.last())
        }
    }
}

proof fn lemma_first_pending(entries: Seq<EntryView>, from: int)
    requires
        0 <= from <= entries.len(),
    ensures
        from <= first_pending(entries, from) <= entries.len(),
    decreases entries.len() - from,
{
    if from < entries.len() && !entries[from].need_send {
        lemma_first_pending(entries, from + 1);
    }
}

proof fn lemma_retained(
    entries: Seq<EntryView>,
    upto: int,
    ack_nr: u16,
    mask: Option<Seq<u8>>,
    top: int,
    first: bool,
    threshold: u32,
)
    requires
        0 <= upto <= entries.len(),
        forall|i: int| 0 <= i < entries.len() ==> (#[trigger] entries[i]).payload.len() <= MAX_PAYLOAD,
    ensures
        retained(entries, upto, ack_nr, mask, top, first, threshold).len() <= upto,
        forall|i: int|
            0 <= i < retained(entries, upto, ack_nr, mask, top, first, threshold).len() ==> (
            #[trigger] retained(entries, upto, ack_nr, mask, top, first, threshold)[i]).payload.len()
                <= MAX_PAYLOAD,
    decreases upto,
{
    if upto > 0 {
        lemma_retained(entries, upto - 1, ack_nr, mask, top, first, threshold);
        let rest = retained(entries, upto - 1, ack_nr, mask, top, first, threshold);
        let all = retained(entries, upto, ack_nr, mask, top, first, threshold);
        assert(entries[upto - 1].payload.len() <= MAX_PAYLOAD);
        assert forall|i: int| 0 <= i < all.len() implies (#[trigger] all[i]).payload.len()
            <= MAX_PAYLOAD by {
            if i < rest.len() {
                assert(all[i] == rest[i]);
            }
        }
    }
}

proof fn lemma_measured(
    c: CongestionView,
    entries: Seq<EntryView>,
    upto: int,
    ack_nr: u16,
    mask: Option<Seq<u8>>,
    now: u64,
)
    requires
        c.wf(),
    ensures
        measured(c, entries, upto, ack_nr, mask, now).wf(),
    decreases upto,
{
    if upto > 0 {
        lemma_measured(c, entries, upto - 1, ack_nr, mask, now);
    }
}

/// Every event keeps the invariant of the queue.
pub proof fn lemma_event_keeps_wf(q: OutQueueView, event: QueueEvent)
    requires
        q.wf(),
    ensures
        q.after(event).wf(),
{
    let after = q.after(event);
    match event {
        QueueEvent::Push(bytes) => {
            if !q.backpressure(bytes) {
                let room = MAX_DELTA_SEQ - q.entries.len();
                let n = accepted_len(bytes.len() as int, room);
                let count = packet_count(n);
                assert(0 <= n <= bytes.len());
                assert(0 <= count <= room);
                assert(after.entries.len() == q.entries.len() + count);
                assert forall|i: int| 0 <= i < after.entries.len() implies (
                #[trigger] after.entries[i]).payload.len() <= MAX_PAYLOAD by {
                    if i < q.entries.len() {
                        assert(after.entries[i] == q.entries[i]);
                    } else {
                        let j = i - q.entries.len();
                        assert(after.entries[i].payload == segment(bytes, j, n));
                        assert(0 <= j * MAX_PAYLOAD <= n);
                    }
                }
            }
        },
        QueueEvent::Control(ty) => {
            if q.entries.len() < MAX_DELTA_SEQ {
                assert forall|i: int| 0 <= i < after.entries.len() implies (
                #[trigger] after.entries[i]).payload.len() <= MAX_PAYLOAD by {
                    if i < q.entries.len() {
                        assert(after.entries[i] == q.entries[i]);
                    }
                }
            }
        },
        QueueEvent::Ack(ack_nr, mask, window_size, timestamp_difference, bare, now) => {
            let n = q.entries.len() as int;
            let top = highest_covered(q.entries, ack_nr, mask);
            let first = bare && top < 0 && n > 0 && q.entries[0].seq_nr == seq_after(ack_nr, 1);
            lemma_retained(
                q.entries,
                n,
                ack_nr,
                mask,
                top,
                first,
                q.congestion.tuning.fast_resend_threshold,
            );
            lemma_measured(q.congestion, q.entries, n, ack_nr, mask, now);
            let kept = retained(
                q.entries,
                n,
                ack_nr,
                mask,
                top,
                first,
                q.congestion.tuning.fast_resend_threshold,
            );
            let c1 = measured(q.congestion, q.entries, n, ack_nr, mask, now);
            crate::congestion::lemma_event_keeps_wf(
                c1,
                crate::congestion::Event::PeerWindow(window_size),
            );
            crate::congestion::lemma_event_keeps_wf(
                c1.with_peer_window(window_size),
                crate::congestion::Event::Delay(
                    timestamp_difference,
                    top >= 0 && !any_in_flight(kept),
                    now,
                ),
            );
        },
        QueueEvent::Send(now) => {
            if q.sendable() is Some {
                let k = q.sendable().unwrap();
                lemma_first_pending(q.entries, 0);
                assert(after.entries.len() == q.entries.len());
                assert forall|i: int| 0 <= i < after.entries.len() implies (
                #[trigger] after.entries[i]).payload.len() <= MAX_PAYLOAD by {
                    assert(q.entries[i].payload.len() <= MAX_PAYLOAD);
                }
            }
        },
        QueueEvent::Check(now) => {
            if expired_count(q.entries, q.entries.len() as int, now) != 0 {
                assert(after.entries.len() == q.entries.len());
                assert forall|i: int| 0 <= i < after.entries.len() implies (
                #[trigger] after.entries[i]).payload.len() <= MAX_PAYLOAD by {
                    assert(q.entries[i].payload.len() <= MAX_PAYLOAD);
                }
            }
        },
    }
}

/// Whatever the application writes, whatever acknowledgments arrive and
/// whichever timeouts run out, in whatever order: the queue never holds more
/// than `MAX_DELTA_SEQ` packets that wait for their acknowledgment, and the
/// congestion window is at most `MAX_WINDOW_SIZE` and at most the window
/// that the peer advertised, and at least one packet wherever the peer's
/// window is.
pub proof fn lemma_queue_stays_bounded(q: OutQueueView, events: Seq<QueueEvent>)
    requires
        q.wf(),
    ensures
        q.after_all(events).wf(),
        q.after_all(events).entries.len() <= MAX_DELTA_SEQ,
        q.after_all(events).congestion.window <= crate::MAX_WINDOW_SIZE,
        q.after_all(events).congestion.window <= q.after_all(events).congestion.peer_window,
        q.after_all(events).congestion.peer_window >= crate::congestion::MIN_WINDOW_SIZE
            ==> q.after_all(events).congestion.window >= crate::congestion::MIN_WINDOW_SIZE,
    decreases events.len(),
{
    if events.len() > 0 {
        lemma_queue_stays_bounded(q, events.drop_last());
        lemma_event_keeps_wf(q.after_all(events.drop_last()), events.last());
    }
}

/// The queue never holds more than `MAX_DELTA_SEQ` packets that wait for
/// their acknowledgment.
pub proof fn lemma_in_flight_ceiling(q: OutQueueView)
    requires
        q.wf(),
    ensures
        q.entries.len() <= MAX_DELTA_SEQ,
        bytes_in_flight(q.entries) <= MAX_DELTA_SEQ * MAX_PAYLOAD,
{
    lemma_bytes_in_flight_bound(q.entries);
}

proof fn lemma_none_expired(entries: Seq<EntryView>, upto: int, now: u64)
    requires
        0 <= upto <= entries.len(),
        expired_count(entries, upto, now) == 0,
    ensures
        forall|k: int| 0 <= k < upto ==> !(#[trigger] entries[k]).expired(now),
    decreases upto,
{
    if upto > 0 {
        lemma_expired_count_bounds(entries, upto - 1, now);
        lemma_none_expired(entries, upto - 1, now);
    }
}

proof fn lemma_expired_count_bounds(entries: Seq<EntryView>, upto: int, now: u64)
    requires
        0 <= upto,
    ensures
        0 <= expired_count(entries, upto, now) <= upto,
    decreases upto,
{
    if upto > 0 {
        lemma_expired_count_bounds(entries, upto - 1, now);
    }
}

proof fn lemma_bytes_in_flight_bound(entries: Seq<EntryView>)
    requires
        forall|i: int| 0 <= i < entries.len() ==> (#[trigger] entries[i]).payload.len() <= MAX_PAYLOAD,
    ensures
        0 <= bytes_in_flight(entries) <= entries.len() * MAX_PAYLOAD,
    decreases entries.len(),
{
    if entries.len() > 0 {
        let front = entries.drop_last();
        assert forall|i: int| 0 <= i < front.len() implies (#[trigger] front[i]).payload.len()
            <= MAX_PAYLOAD by {
            assert(front[i] == entries[i]);
        }
        lemma_bytes_in_flight_bound(front);
        assert(entries.last() == entries[entries.len() - 1]);
    }
}

// ---------------------------------------------------------------------------
// The queue
// ---------------------------------------------------------------------------

struct Entry {
    seq_nr: u16,
    ty: PacketType,
    payload: Vec<u8>,
    transmissions: u32,
    last_sent: u64,
    deadline: u64,
    need_send: bool,
    skipped: u32,
}

impl View for Entry {
    type V = EntryView;

    closed spec fn view(&self) -> EntryView {
        EntryView {
            seq_nr: self.seq_nr,
            ty: self.ty,
            payload: self.payload@,
            transmissions: self.transmissions,
            last_sent: self.last_sent,
            deadline: self.deadline,
            need_send: self.need_send,
            skipped: self.skipped,
        }
    }
}

spec fn entries_view(entries: Seq<Entry>) -> Seq<EntryView> {
    Seq::new(entries.len(), |i: int| entries[i]@)
}

/// Buffers what the application wrote until the peer has acknowledged it.
pub struct OutQueue {
    entries: Vec<Entry>,
    next_seq: u16,
    connection_id: u16,
    retries: u32,
    congestion: Congestion,
}

impl View for OutQueue {
    type V = OutQueueView;

    closed spec fn view(&self) -> OutQueueView {
        OutQueueView {
            entries: entries_view(self.entries@),
            next_seq: self.next_seq,
            connection_id: self.connection_id,
            retries: self.retries,
            congestion: self.congestion@,
        }
    }
}

/// Tells whether bit `i` of the selective acknowledgment `mask` is set.
pub fn selective_ack_has(mask: &Vec<u8>, i: usize) -> (r: bool)
    ensures
        r == selective_ack_bit(mask@, i as int),
{
    if i / 8 < mask.len() {
        test_bit(mask[i / 8], (i % 8) as u8)
    } else {
        false
    }
}

fn is_covered(entry: &Entry, ack_nr: u16, mask: &Option<Vec<u8>>) -> (r: bool)
    ensures
        r == entry@.covered_by(ack_nr, bytes_view(*mask)),
{
    if entry.transmissions == 0 {
        return false;
    }
    if !wrapping_lt(ack_nr as u32, entry.seq_nr as u32, SEQ_MASK) {
        return true;
    }
    match mask {
        Some(m) => {
            let d: u32 = (entry.seq_nr as u32).wrapping_sub(ack_nr as u32) & SEQ_MASK;
            d >= 2 && selective_ack_has(m, (d - 2) as usize)
        },
        None => false,
    }
}

impl OutQueue {
    /// The invariant of the queue.
    pub open spec fn wf(&self) -> bool {
        self@.wf()
    }

    /// The empty queue of a new connection, whose packets carry
    /// `connection_id` and are numbered from `first_seq` on.
    pub fn new(connection_id: u16, first_seq: u16, tuning: Tuning) -> (q: OutQueue)
        ensures
            q.wf(),
            q@ == OutQueueView::initial(connection_id, first_seq, tuning.limited()),
    {
        let q = OutQueue {
            entries: Vec::new(),
            next_seq: first_seq,
            connection_id,
            retries: 0,
            congestion: Congestion::new(tuning),
        };
        assert(q@.entries =~= Seq::<EntryView>::empty());
        q
    }

    /// Number of packets that wait for their acknowledgment.
    pub fn len(&self) -> (r: usize)
        ensures
            r == self@.entries.len(),
    {
        self.entries.len()
    }

    /// Sequence number of the oldest packet that waits for its
    /// acknowledgment.
    pub fn first_seq(&self) -> (r: Option<u16>)
        ensures
            r == if self@.entries.len() > 0 {
                Some(self@.entries[0].seq_nr)
            } else {
                None
            },
    {
        if self.entries.len() > 0 {
            assert(self@.entries[0] == self.entries@[0]@);
            Some(self.entries[0].seq_nr)
        } else {
            None
        }
    }

    /// The tuning parameters.
    pub fn tuning(&self) -> (r: Tuning)
        ensures
            r == self@.congestion.tuning,
    {
        self.congestion.tuning()
    }

    /// Sequence number of the next packet to be made.
    pub fn next_seq(&self) -> (r: u16)
        ensures
            r == self@.next_seq,
    {
        self.next_seq
    }

    /// How often in a row retransmission timeouts have run out.
    pub fn retries(&self) -> (r: u32)
        ensures
            r == self@.retries,
    {
        self.retries
    }

    /// The congestion window in bytes.
    pub fn window(&self) -> (r: usize)
        ensures
            r == self@.congestion.window,
    {
        self.congestion.window()
    }

    /// The retransmission timeout.
    pub fn timeout(&self) -> (r: u64)
        ensures
            r == self@.congestion.timeout,
    {
        self.congestion.timeout()
    }

    /// Appends one packet of the type `ty` with the payload `payload`.
    fn enqueue(&mut self, ty: PacketType, payload: Vec<u8>)
        requires
            old(self).wf(),
            old(self)@.entries.len() < MAX_DELTA_SEQ,
            payload@.len() <= MAX_PAYLOAD,
        ensures
            final(self).wf(),
            final(self)@ == old(self)@.enqueued(ty, payload@),
    {
        let ghost before = self@;
        let entry = Entry {
            seq_nr: self.next_seq,
            ty,
            payload,
            transmissions: 0,
            last_sent: 0,
            deadline: 0,
            need_send: true,
            skipped: 0,
        };
        self.entries.push(entry);
        self.next_seq = self.next_seq.wrapping_add(1);
        proof {
            assert(self@.entries =~= before.entries.push(EntryView::fresh(before.next_seq, ty, payload@)));
            if before.next_seq == 0xFFFF {
                lemma_fundamental_div_mod_converse(0x1_0000, 0x1_0000, 1, 0);
            } else {
                lemma_fundamental_div_mod_converse(
                    before.next_seq as int + 1,
                    0x1_0000,
                    0,
                    before.next_seq as int + 1,
                );
            }
        }
    }

    /// Appends the packet that opens or ends the stream, or a data packet
    /// without payload. Gives `false`, and changes nothing, where
    /// `MAX_DELTA_SEQ` packets wait for their acknowledgment already.
    pub fn push_control(&mut self, ty: PacketType) -> (accepted: bool)
        requires
            old(self).wf(),
        ensures
            final(self).wf(),
            accepted == (old(self)@.entries.len() < MAX_DELTA_SEQ),
            accepted ==> final(self)@ == old(self)@.enqueued(ty, Seq::empty()),
            !accepted ==> final(self)@ == old(self)@,
    {
        if self.entries.len() < MAX_DELTA_SEQ {
            self.enqueue(ty, Vec::new());
            true
        } else {
            false
        }
    }

    /// Takes in bytes that the application wrote.
    ///
    /// The bytes are cut into data packets of up to `MAX_PAYLOAD` bytes,
    /// which join the queue until `MAX_DELTA_SEQ` packets wait for their
    /// acknowledgment. Gives the number of bytes taken, or `None`, the
    /// signal to wait, where there are bytes and no room for even one
    /// packet.
    pub fn push(&mut self, bytes: &[u8]) -> (taken: Option<usize>)
        requires
            old(self).wf(),
        ensures
            final(self).wf(),
            taken is None <==> bytes@.len() > 0 && old(self)@.entries.len() == MAX_DELTA_SEQ,
            taken is None ==> final(self)@ == old(self)@,
            taken matches Some(n) ==> n == accepted_len(
                bytes@.len() as int,
                MAX_DELTA_SEQ - old(self)@.entries.len(),
            ) && final(self)@ == old(self)@.pushed(bytes@),
    {
        let ghost before = self@;
        let room: usize = MAX_DELTA_SEQ - self.entries.len();
        if bytes.len() > 0 && room == 0 {
            return None;
        }
        let n: usize = if bytes.len() <= room * MAX_PAYLOAD {
            bytes.len()
        } else {
            room * MAX_PAYLOAD
        };
        let count: usize = (n + MAX_PAYLOAD - 1) / MAX_PAYLOAD;
        let mut j: usize = 0;
        proof {
            assert(self@.entries =~= before.entries + Seq::new(
                0,
                |j: int|
                    EntryView::fresh(
                        seq_after(before.next_seq, j),
                        PacketType::Data,
                        segment(bytes@, j, n as int),
                    ),
            ));
            lemma_fundamental_div_mod_converse(
                before.next_seq as int,
                0x1_0000,
                0,
                before.next_seq as int,
            );
        }
        while j < count
            invariant
                self.wf(),
                j <= count,
                count == packet_count(n as int),
                n <= bytes@.len(),
                count <= room,
                room == MAX_DELTA_SEQ - before.entries.len(),
                room <= MAX_DELTA_SEQ,
                self@.connection_id == before.connection_id,
                self@.retries == before.retries,
                self@.congestion == before.congestion,
                self@.next_seq == seq_after(before.next_seq, j as int),
                self@.entries == before.entries + Seq::new(
                    j as nat,
                    |j: int|
                        EntryView::fresh(
                            seq_after(before.next_seq, j),
                            PacketType::Data,
                            segment(bytes@, j, n as int),
                        ),
                ),
            decreases count - j,
        {
            let ghost mid = self@;
            let start: usize = j * MAX_PAYLOAD;
            let end: usize = if (j + 1) * MAX_PAYLOAD <= n {
                (j + 1) * MAX_PAYLOAD
            } else {
                n
            };
            let payload: Vec<u8> = slice_to_vec(slice_subrange(bytes, start, end));
            self.enqueue(PacketType::Data, payload);
            proof {
                crate::in_queue::lemma_seq_after_sum(before.next_seq, j as int, 1);
                assert(self@.entries =~= before.entries + Seq::new(
                    (j + 1) as nat,
                    |j: int|
                        EntryView::fresh(
                            seq_after(before.next_seq, j),
                            PacketType::Data,
                            segment(bytes@, j, n as int),
                        ),
                ));
            }
            j = j + 1;
        }
        Some(n)
    }

    /// Tells whether some packet is in flight.
    pub fn has_in_flight(&self) -> (r: bool)
        ensures
            r == any_in_flight(self@.entries),
    {
        let mut i: usize = 0;
        while i < self.entries.len()
            invariant
                i <= self.entries@.len(),
                forall|k: int| 0 <= k < i ==> !(#[trigger] self@.entries[k]).in_flight(),
            decreases self.entries@.len() - i,
        {
            let e = &self.entries[i];
            assert(self@.entries[i as int] == e@);
            if e.transmissions > 0 && !e.need_send {
                return true;
            }
            i = i + 1;
        }
        false
    }

    /// The payload bytes of the packets in flight.
    pub fn in_flight(&self) -> (r: usize)
        requires
            self.wf(),
        ensures
            r == bytes_in_flight(self@.entries),
    {
        let mut sum: usize = 0;
        let mut i: usize = 0;
        let ghost all = self@.entries;
        assert(all.subrange(0, 0) =~= Seq::<EntryView>::empty());
        while i < self.entries.len()
            invariant
                self.wf(),
                all == self@.entries,
                i <= self.entries@.len(),
                sum == bytes_in_flight(all.subrange(0, i as int)),
                sum <= i * MAX_PAYLOAD,
            decreases self.entries@.len() - i,
        {
            let ghost upto = all.subrange(0, i + 1);
            assert(upto.drop_last() =~= all.subrange(0, i as int));
            assert(upto.last() == all[i as int]);
            assert(all[i as int].payload.len() <= MAX_PAYLOAD);
            let e = &self.entries[i];
            if e.transmissions > 0 && !e.need_send {
                sum = sum + e.payload.len();
            }
            i = i + 1;
        }
        assert(all.subrange(0, i as int) =~= all);
        sum
    }

    /// The next packet to transmit at `now`, if the congestion window lets
    /// one through: the first packet that was not transmitted yet or is
    /// marked to be sent again. The packet is then in flight, with a
    /// retransmission timeout that starts at `now`. The acknowledgment
    /// fields of what is handed out are left empty for the caller to fill.
    pub fn next_sendable(&mut self, now: u64) -> (r: Option<Packet>)
        requires
            old(self).wf(),
        ensures
            final(self).wf(),
            match r {
                None => old(self)@.sendable() is None && final(self)@ == old(self)@,
                Some(p) => old(self)@.sendable() matches Some(i) && p@ == old(self)@.outgoing(i, now)
                    && final(self)@ == old(self)@.after_send(i, now),
            },
    {
        let ghost before = self@;
        let mut i: usize = 0;
        while i < self.entries.len() && !self.entries[i].need_send
            invariant
                i <= self.entries@.len(),
                before == self@,
                first_pending(before.entries, i as int) == first_pending(before.entries, 0),
            decreases self.entries@.len() - i,
        {
            i = i + 1;
        }
        if i >= self.entries.len() {
            return None;
        }
        let flying: usize = self.in_flight();
        proof {
            lemma_in_flight_ceiling(before);
        }
        if flying + self.entries[i].payload.len() > self.congestion.window() {
            return None;
        }
        let timeout: u64 = self.congestion.timeout();
        let mut entry: Entry = self.entries.remove(i);
        let packet = Packet {
            ty: entry.ty,
            connection_id: self.connection_id,
            timestamp: (now % 0x1_0000_0000) as u32,
            timestamp_difference: 0,
            window_size: 0,
            seq_nr: entry.seq_nr,
            ack_nr: 0,
            selective_ack: None,
            payload: slice_to_vec(entry.payload.as_slice()),
        };
        entry.transmissions = if entry.transmissions < u32::MAX {
            entry.transmissions + 1
        } else {
            entry.transmissions
        };
        entry.last_sent = now;
        entry.deadline = now.saturating_add(timeout);
        entry.need_send = false;
        self.entries.insert(i, entry);
        proof {
            assert(self@.entries =~= before.after_send(i as int, now).entries);
        }
        Some(packet)
    }

    /// Checks the retransmission timeouts at `now`.
    ///
    /// Every packet in flight whose timeout has run out is marked to be
    /// sent again. If there is one, the window falls to one packet, the
    /// timeout doubles, and one more timeout in a row is counted. Gives the
    /// number of packets marked, or the failure of the connection once
    /// timeouts have run out more than `MAX_RETRIES` times in a row.
    pub fn retransmission_check(&mut self, now: u64) -> (r: Result<usize, Failure>)
        requires
            old(self).wf(),
        ensures
            final(self).wf(),
            final(self)@ == old(self)@.checked(now),
            r == if final(self)@.retries > MAX_RETRIES {
                Err::<usize, Failure>(Failure::Timeout)
            } else {
                Ok::<usize, Failure>(
                    expired_count(old(self)@.entries, old(self)@.entries.len() as int, now) as usize,
                )
            },
    {
        let ghost before = self@;
        let mut count: usize = 0;
        let mut i: usize = 0;
        let n: usize = self.entries.len();
        assert(self@.entries =~= Seq::new(
            before.entries.len(),
            |k: int|
                if k < 0 {
                    before.entries[k].checked(now)
                } else {
                    before.entries[k]
                },
        ));
        while i < n
            invariant
                self.congestion.wf(),
                before.wf(),
                n == before.entries.len(),
                n == self.entries@.len(),
                i <= n,
                count == expired_count(before.entries, i as int, now),
                count <= i,
                self@.next_seq == before.next_seq,
                self@.connection_id == before.connection_id,
                self@.retries == before.retries,
                self@.congestion == before.congestion,
                self@.entries == Seq::new(
                    before.entries.len(),
                    |k: int|
                        if k < i {
                            before.entries[k].checked(now)
                        } else {
                            before.entries[k]
                        },
                ),
            decreases n - i,
        {
            let ghost mid = self@.entries;
            let ghost raw = self.entries@;
            assert(mid[i as int] == before.entries[i as int]);
            let mut entry: Entry = self.entries.remove(i);
            if entry.transmissions > 0 && !entry.need_send && entry.deadline <= now {
                entry.need_send = true;
                count = count + 1;
            }
            let ghost marked = entry@;
            assert(marked == before.entries[i as int].checked(now));
            self.entries.insert(i, entry);
            assert forall|k: int| 0 <= k < n implies (#[trigger] self@.entries[k]) == (if k < i + 1 {
                before.entries[k].checked(now)
            } else {
                before.entries[k]
            }) by {
                if k != i {
                    assert(self.entries@[k] == raw[k]);
                    assert(mid[k] == raw[k]@);
                }
            }
            assert(self@.entries =~= Seq::new(
                before.entries.len(),
                |k: int|
                    if k < i + 1 {
                        before.entries[k].checked(now)
                    } else {
                        before.entries[k]
                    },
            ));
            i = i + 1;
        }
        if count > 0 {
            self.retries = if self.retries < u32::MAX {
                self.retries + 1
            } else {
                self.retries
            };
            self.congestion.on_timeout();
            assert(self@.entries =~= before.checked(now).entries);
        } else {
            proof {
                lemma_none_expired(before.entries, n as int, now);
            }
            assert(self@.entries =~= before.entries);
        }
        if self.retries > MAX_RETRIES {
            Err(Failure::Timeout)
        } else {
            Ok(count)
        }
    }

    /// Takes in an acknowledgment that arrived at `now`: the peer has
    /// received everything up to `ack_nr` and what `selective_ack` marks
    /// beyond it, is willing to receive `window_size` bytes, and measured
    /// the delay `timestamp_difference` on the way to it. `bare` says that
    /// the acknowledgment came in a packet of its own.
    ///
    /// Gives the number of packets that the acknowledgment retired.
    pub fn on_ack(
        &mut self,
        ack_nr: u16,
        selective_ack: &Option<Vec<u8>>,
        window_size: u32,
        timestamp_difference: u32,
        bare: bool,
        now: u64,
    ) -> (retired: usize)
        requires
            old(self).wf(),
        ensures
            final(self).wf(),
            final(self)@ == old(self)@.acked(
                ack_nr,
                bytes_view(*selective_ack),
                window_size,
                timestamp_difference,
                bare,
                now,
            ),
            retired == old(self)@.entries.len() - final(self)@.entries.len(),
    {
        let ghost before = self@;
        let ghost mask = bytes_view(*selective_ack);
        let n: usize = self.entries.len();
        let threshold: u32 = self.congestion.tuning().fast_resend_threshold;

        // the last packet that the acknowledgment covers
        let mut found: bool = false;
        let mut top: usize = 0;
        let mut i: usize = 0;
        assert(before.entries.subrange(0, 0) =~= Seq::<EntryView>::empty());
        while i < n
            invariant
                before == self@,
                mask == bytes_view(*selective_ack),
                n == self.entries@.len(),
                i <= n,
                found ==> top < i && highest_covered(before.entries.subrange(0, i as int), ack_nr, mask)
                    == top,
                !found ==> highest_covered(before.entries.subrange(0, i as int), ack_nr, mask) == -1,
            decreases n - i,
        {
            let ghost upto = before.entries.subrange(0, i + 1);
            assert(upto.drop_last() =~= before.entries.subrange(0, i as int));
            assert(upto.last() == before.entries[i as int]);
            if is_covered(&self.entries[i], ack_nr, selective_ack) {
                found = true;
                top = i;
            }
            i = i + 1;
        }
        assert(before.entries.subrange(0, n as int) =~= before.entries);
        let first: bool = bare && !found && n > 0 && self.entries[0].seq_nr == ack_nr.wrapping_add(
            1,
        );
        proof {
            if ack_nr == 0xFFFF {
                lemma_fundamental_div_mod_converse(0x1_0000, 0x1_0000, 1, 0);
            } else {
                lemma_fundamental_div_mod_converse(ack_nr as int + 1, 0x1_0000, 0, ack_nr as int + 1);
            }
        }
        let ghost g_top: int = highest_covered(before.entries, ack_nr, mask);

        // retire what is covered, measure, and count who was passed over
        let mut waiting: Vec<Entry> = Vec::new();
        std::mem::swap(&mut self.entries, &mut waiting);
        let mut i: usize = 0;
        assert(entries_view(self.entries@) =~= retained(
            before.entries,
            0,
            ack_nr,
            mask,
            g_top,
            first,
            threshold,
        ));
        assert(entries_view(waiting@) =~= before.entries.subrange(0, n as int));
        while i < n
            invariant
                self.congestion.wf(),
                before.wf(),
                mask == bytes_view(*selective_ack),
                n == before.entries.len(),
                i <= n,
                found == (g_top >= 0),
                found ==> top == g_top,
                threshold == before.congestion.tuning.fast_resend_threshold,
                self.congestion@.tuning == before.congestion.tuning,
                self@.next_seq == before.next_seq,
                self@.connection_id == before.connection_id,
                self@.retries == before.retries,
                waiting@.len() == n - i,
                entries_view(waiting@) == before.entries.subrange(i as int, n as int),
                self@.entries == retained(before.entries, i as int, ack_nr, mask, g_top, first, threshold),
                self@.entries.len() <= i,
                forall|k: int|
                    0 <= k < self@.entries.len() ==> (#[trigger] self@.entries[k]).payload.len()
                        <= MAX_PAYLOAD,
                self.congestion@ == measured(
                    before.congestion,
                    before.entries,
                    i as int,
                    ack_nr,
                    mask,
                    now,
                ),
            decreases n - i,
        {
            let ghost kept = self@.entries;
            let ghost rest = entries_view(waiting@);
            assert(rest[0] == before.entries[i as int]);
            let mut entry: Entry = waiting.remove(0);
            assert(entry@ == before.entries[i as int]);
            assert(entries_view(waiting@) =~= before.entries.subrange(i + 1, n as int)) by {
                assert forall|k: int| 0 <= k < n - i - 1 implies entries_view(waiting@)[k]
                    == before.entries[i + 1 + k] by {
                    assert(rest[k + 1] == before.entries[i + 1 + k]);
                }
            }
            if is_covered(&entry, ack_nr, selective_ack) {
                if entry.transmissions == 1 {
                    let sample: u64 = if now >= entry.last_sent {
                        now - entry.last_sent
                    } else {
                        0
                    };
                    self.congestion.on_rtt_sample(sample);
                }
                assert(self@.entries =~= kept);
            } else {
                if (found && i < top) || (i == 0 && first) {
                    if entry.transmissions > 0 && !entry.need_send {
                        if entry.skipped >= threshold {
                            entry.need_send = true;
                            entry.skipped = 0;
                        } else {
                            entry.skipped = entry.skipped + 1;
                        }
                    }
                    assert(entry@ == before.entries[i as int].passed_over(threshold));
                }
                let ghost pushed = entry@;
                self.entries.push(entry);
                assert(self@.entries =~= kept.push(pushed));
            }
            i = i + 1;
        }
        if found {
            self.retries = 0;
        }
        self.congestion.set_peer_window(window_size);
        if timestamp_difference != 0 {
            let fully_acked: bool = found && !self.has_in_flight();
            self.congestion.congestion_control_update(timestamp_difference, fully_acked, now);
        }
        n - self.entries.len()
    }
}

} // verus!
