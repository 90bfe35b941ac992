//! The connection: the state machine that drives handshake and teardown
//! over one inbound and one outbound queue.
//!
//! A connection does no I/O. Packets that arrived, clock readings and the
//! application's calls are handed in; `poll_transmit` hands out, one at a
//! time, the packets to put on the wire. All times are microseconds on a
//! clock of the caller's that does not run backwards.

use crate::congestion::Tuning;
use crate::in_queue::{seq_after, InQueue, InQueueView};
use crate::out_queue::{accepted_len, elapsed, OutQueue, OutQueueView, MAX_RETRIES};
use crate::packet::{Packet, PacketType, PacketView};
use crate::util::{identifier_pair, sequential_identifiers};
use crate::{Failure, MAX_DELTA_SEQ, MAX_WINDOW_SIZE};
use vstd::arithmetic::div_mod::lemma_fundamental_div_mod_converse;
use vstd::prelude::*;

verus! {

/// How long a connection may stay without traffic before it is given up.
pub const INACTIVITY_CEILING: u64 = 30_000_000;

/// Where a connection stands in its life.
#[derive(Clone, Copy, Debug, PartialEq, Eq, Structural)]
pub enum State {
    /// Neither opened nor accepted yet.
    Idle,
    /// Opened here; the packet that opens the connection is on its way.
    HandshakeSent,
    /// Opened by the peer and acknowledged; nothing more heard of the peer
    /// yet.
    HandshakeReceived,
    /// Both directions carry data.
    Connected,
    /// Closed here; what was written is still being delivered.
    FinSent,
    /// Closed by the peer; this side may still write.
    FinReceived,
    /// Over.
    Closed,
}

/// Why a read or a write gave nothing.
#[derive(Clone, Copy, Debug, PartialEq, Eq, Structural)]
pub enum StreamError {
    /// Nothing can be done now; try again after the next packet or tick.
    WouldBlock,
    /// The connection is not open in this direction.
    NotConnected,
    /// The peer reset the connection.
    Reset,
    /// The peer stayed silent for too long.
    Timeout,
}

/// The reading of the 32-bit wrapping clock at `now`.
pub open spec fn clock_of(now: u64) -> u32 {
    (now % 0x1_0000_0000) as u32
}

/// The delay of a packet that arrived at `now` and was stamped `sent` on the
/// sender's clock.
pub open spec fn delay_between(now: u64, sent: u32) -> u32 {
    clock_of(now).wrapping_sub(sent)
}

/// The bytes that a connection is willing to receive beyond what waits to
/// be read.
pub open spec fn receive_window(q: InQueueView) -> u32 {
    if q.readable.len() >= MAX_WINDOW_SIZE {
        0
    } else {
        (MAX_WINDOW_SIZE - q.readable.len()) as u32
    }
}

/// The error that stands for a failure.
pub open spec fn error_of(failure: Failure) -> StreamError {
    match failure {
        Failure::Reset => StreamError::Reset,
        Failure::Timeout => StreamError::Timeout,
    }
}

/// The connection as a mathematical value.
pub struct ConnectionView {
    /// Where the connection stands.
    pub state: State,
    /// The identifier that packets for this side carry.
    pub recv_id: u16,
    /// The identifier that packets for the peer carry.
    pub send_id: u16,
    /// What arrived.
    pub in_queue: InQueueView,
    /// What is to be sent.
    pub out_queue: OutQueueView,
    /// Why the connection ended, if it did not end by being closed.
    pub failure: Option<Failure>,
    /// Sequence number of the packet with which the peer ended its stream.
    pub peer_fin: Option<u16>,
    /// The delay of the latest packet from the peer, to be reported back.
    pub reply_delay: u32,
    /// When a packet last arrived or left.
    pub last_activity: u64,
    /// An acknowledgment is to be sent.
    pub ack_due: bool,
}

impl ConnectionView {
    /// The invariant of the connection: that of its queues.
    pub open spec fn wf(self) -> bool {
        &&& self.in_queue.wf()
        &&& self.out_queue.wf()
    }

    /// The tuning parameters.
    pub open spec fn tuning(self) -> Tuning {
        self.out_queue.congestion.tuning
    }

    /// A connection that is not in use yet.
    pub open spec fn idle(tuning: Tuning) -> ConnectionView {
        ConnectionView {
            state: State::Idle,
            recv_id: 0,
            send_id: 0,
            in_queue: InQueueView::empty(0),
            out_queue: OutQueueView::initial(0, 0, tuning),
            failure: None,
            peer_fin: None,
            reply_delay: 0,
            last_activity: 0,
            ack_due: false,
        }
    }

    /// The connection after it was opened at `now` with the identifiers
    /// around `id`: the packet that opens it, numbered `first_seq`, waits to
    /// be sent.
    pub open spec fn connecting(self, id: u16, first_seq: u16, now: u64) -> ConnectionView {
        let ids = identifier_pair(id);
        ConnectionView {
            state: State::HandshakeSent,
            recv_id: ids.0,
            send_id: ids.1,
            in_queue: InQueueView::empty(0),
            out_queue: OutQueueView::initial(ids.1, first_seq, self.tuning()).enqueued(
                PacketType::Syn,
                Seq::empty(),
            ),
            failure: None,
            peer_fin: None,
            reply_delay: 0,
            last_activity: now,
            ack_due: false,
        }
    }

    /// The connection after it took the packet `syn`, with which a peer
    /// opens a connection, at `now`: it expects the packet after `syn`,
    /// numbers its own from `first_seq`, and owes the acknowledgment that
    /// completes the handshake.
    pub open spec fn accepting(self, syn: PacketView, first_seq: u16, now: u64) -> ConnectionView {
        ConnectionView {
            state: State::HandshakeReceived,
            recv_id: seq_after(syn.connection_id, 1),
            send_id: syn.connection_id,
            in_queue: InQueueView::empty(seq_after(syn.seq_nr, 1)),
            out_queue: OutQueueView::initial(syn.connection_id, first_seq, self.tuning()),
            failure: None,
            peer_fin: None,
            reply_delay: delay_between(now, syn.timestamp),
            last_activity: now,
            ack_due: true,
        }
    }

    /// The connection after it failed: closed, and what was buffered is
    /// gone.
    pub open spec fn failed(self, failure: Failure) -> ConnectionView {
        ConnectionView {
            state: State::Closed,
            failure: Some(failure),
            in_queue: InQueueView::empty(self.in_queue.next_seq),
            out_queue: OutQueueView::initial(
                self.send_id,
                self.out_queue.next_seq,
                self.tuning(),
            ),
            ack_due: false,
            ..self
        }
    }

    /// The peer has ended its stream and everything before the end was
    /// delivered.
    pub open spec fn at_end_of_stream(self) -> bool {
        self.peer_fin matches Some(fin) && self.in_queue.next_seq == seq_after(fin, 1)
    }

    /// The connection, closed if both directions are done: it was closed
    /// here, everything written was acknowledged, the peer's stream was
    /// delivered to its end, and no acknowledgment is owed.
    pub open spec fn settled(self) -> ConnectionView {
        if self.state == State::FinSent && self.out_queue.entries.len() == 0
            && self.at_end_of_stream() && !self.ack_due {
            ConnectionView { state: State::Closed, ..self }
        } else {
            self
        }
    }

    /// An open connection after a packet of data, an acknowledgment or the
    /// end of the peer's stream arrived at `now`.
    ///
    /// The outbound queue takes the acknowledgment that the packet carries.
    /// Data goes to the inbound queue. The end of the peer's stream goes
    /// there too, as a packet without payload, and is remembered. Both are
    /// to be acknowledged.
    pub open spec fn absorbed(self, p: PacketView, now: u64) -> ConnectionView {
        let base = ConnectionView {
            out_queue: self.out_queue.acked(
                p.ack_nr,
                p.selective_ack,
                p.window_size,
                p.timestamp_difference,
                p.ty == PacketType::State,
                now,
            ),
            reply_delay: delay_between(now, p.timestamp),
            last_activity: now,
            ..self
        };
        match p.ty {
            PacketType::State => base.settled(),
            PacketType::Data => (ConnectionView {
                in_queue: self.in_queue.accept(p.seq_nr, p.payload),
                ack_due: true,
                ..base
            }).settled(),
            PacketType::Fin => (ConnectionView {
                in_queue: self.in_queue.accept(p.seq_nr, Seq::empty()),
                ack_due: true,
                peer_fin: if self.peer_fin is None {
                    Some(p.seq_nr)
                } else {
                    self.peer_fin
                },
                state: if self.state == State::Connected {
                    State::FinReceived
                } else {
                    self.state
                },
                ..base
            }).settled(),
            _ => self,
        }
    }

    /// The connection after the packet `p` arrived at `now`.
    ///
    /// An idle connection takes nothing. A closed one takes nothing either,
    /// but where it ended by being closed it acknowledges the end of the
    /// peer's stream once more, for the peer may have missed the
    /// acknowledgment. A reset fails the connection at once. While the
    /// handshake is out, the acknowledgment of
    /// the opening packet completes it and says from where the peer
    /// numbers its packets. After the handshake came in, a repeated opening
    /// packet is acknowledged again, and anything else completes the
    /// handshake. An open connection takes data, acknowledgments and the
    /// end of the peer's stream.
    pub open spec fn received(self, p: PacketView, now: u64) -> ConnectionView {
        if self.state == State::Idle {
            self
        } else if self.state == State::Closed {
            if p.ty == PacketType::Fin && self.failure is None {
                ConnectionView { ack_due: true, ..self }
            } else {
                self
            }
        } else if p.ty == PacketType::Reset {
            self.failed(Failure::Reset)
        } else if self.state == State::HandshakeSent {
            if p.ty == PacketType::State && self.out_queue.entries.len() > 0 && p.ack_nr
                == self.out_queue.entries[0].seq_nr {
                ConnectionView {
                    state: State::Connected,
                    in_queue: InQueueView::empty(p.seq_nr),
                    out_queue: self.out_queue.acked(
                        p.ack_nr,
                        p.selective_ack,
                        p.window_size,
                        p.timestamp_difference,
                        true,
                        now,
                    ),
                    reply_delay: delay_between(now, p.timestamp),
                    last_activity: now,
                    ..self
                }
            } else {
                self
            }
        } else if p.ty == PacketType::Syn {
            if self.state == State::HandshakeReceived {
                ConnectionView { ack_due: true, last_activity: now, ..self }
            } else {
                self
            }
        } else if self.state == State::HandshakeReceived {
            (ConnectionView { state: State::Connected, ..self }).absorbed(p, now)
        } else {
            self.absorbed(p, now)
        }
    }

    /// The connection after the timers were checked at `now`.
    ///
    /// The outbound queue checks its retransmission timeouts. The
    /// connection fails with a timeout where those have run out more than
    /// `MAX_RETRIES` times in a row, or where no packet has arrived or left
    /// for longer than `INACTIVITY_CEILING`.
    pub open spec fn ticked(self, now: u64) -> ConnectionView {
        if self.state == State::Idle || self.state == State::Closed {
            self
        } else if self.out_queue.checked(now).retries > MAX_RETRIES {
            self.failed(Failure::Timeout)
        } else if elapsed(now, self.last_activity) > INACTIVITY_CEILING {
            self.failed(Failure::Timeout)
        } else {
            (ConnectionView { out_queue: self.out_queue.checked(now), ..self }).settled()
        }
    }

    /// What a write of `bytes` gives: the number of bytes taken, or why
    /// none were.
    pub open spec fn write_result(self, bytes: Seq<u8>) -> Result<int, StreamError> {
        match self.state {
            State::Closed => Err(
                match self.failure {
                    Some(f) => error_of(f),
                    None => StreamError::NotConnected,
                },
            ),
            State::Idle => Err(StreamError::NotConnected),
            State::FinSent => Err(StreamError::NotConnected),
            State::HandshakeSent => Err(StreamError::WouldBlock),
            State::HandshakeReceived => Err(StreamError::WouldBlock),
            _ => if bytes.len() > 0 && self.out_queue.entries.len() == MAX_DELTA_SEQ {
                Err(StreamError::WouldBlock)
            } else {
                Ok(accepted_len(bytes.len() as int, MAX_DELTA_SEQ - self.out_queue.entries.len()))
            },
        }
    }

    /// The connection after a write of `bytes`.
    pub open spec fn written(self, bytes: Seq<u8>) -> ConnectionView {
        if self.write_result(bytes) is Ok {
            ConnectionView { out_queue: self.out_queue.pushed(bytes), ..self }
        } else {
            self
        }
    }

    /// What a read of up to `max` bytes gives: bytes of the stream, none at
    /// the end of the stream, or why there are none now.
    pub open spec fn read_result(self, max: int) -> Result<Seq<u8>, StreamError> {
        if self.failure is Some {
            Err(error_of(self.failure.unwrap()))
        } else if self.state == State::Idle {
            Err(StreamError::NotConnected)
        } else if self.in_queue.readable.len() > 0 {
            Ok(
                self.in_queue.readable.subrange(
                    0,
                    if max <= self.in_queue.readable.len() {
                        max
                    } else {
                        self.in_queue.readable.len() as int
                    },
                ),
            )
        } else if self.at_end_of_stream() || self.state == State::Closed {
            Ok(Seq::empty())
        } else {
            Err(StreamError::WouldBlock)
        }
    }

    /// The connection after a read of up to `max` bytes.
    pub open spec fn after_read(self, max: int) -> ConnectionView {
        match self.read_result(max) {
            Ok(bytes) => ConnectionView {
                in_queue: self.in_queue.consume(bytes.len() as int),
                ..self
            },
            Err(_) => self,
        }
    }

    /// Whether the connection can be closed now: not while it is open and
    /// the outbound queue has no room for the packet that ends the stream.
    pub open spec fn can_close(self) -> bool {
        (self.state == State::Connected || self.state == State::FinReceived)
            ==> self.out_queue.entries.len() < MAX_DELTA_SEQ
    }

    /// The connection after it was closed here. An open connection queues
    /// the packet that ends its stream. One that was never open is over at
    /// once.
    pub open spec fn closing(self) -> ConnectionView {
        match self.state {
            State::Connected | State::FinReceived => if self.can_close() {
                ConnectionView {
                    state: State::FinSent,
                    out_queue: self.out_queue.enqueued(PacketType::Fin, Seq::empty()),
                    ..self
                }
            } else {
                self
            },
            State::Idle | State::HandshakeSent | State::HandshakeReceived => ConnectionView {
                state: State::Closed,
                ..self
            },
            _ => self,
        }
    }

    /// The connection is in use: neither idle nor closed.
    pub open spec fn may_transmit(self) -> bool {
        self.state != State::Idle && self.state != State::Closed
    }

    /// `p` with the fields that say whom it is for and what this side
    /// receives: the opening packet carries the identifier of this side,
    /// any other that of the peer.
    pub open spec fn addressed(self, p: PacketView) -> PacketView {
        PacketView {
            connection_id: if p.ty == PacketType::Syn {
                self.recv_id
            } else {
                self.send_id
            },
            timestamp_difference: self.reply_delay,
            window_size: receive_window(self.in_queue),
            ..p
        }
    }

    /// An acknowledgment in a packet of its own, sent at `now`, before its
    /// acknowledgment fields are filled.
    pub open spec fn bare_ack(self, now: u64) -> PacketView {
        PacketView {
            ty: PacketType::State,
            connection_id: self.send_id,
            timestamp: clock_of(now),
            timestamp_difference: 0,
            window_size: 0,
            seq_nr: self.out_queue.next_seq,
            ack_nr: 0,
            selective_ack: None,
            payload: Seq::empty(),
        }
    }

    /// The packet that leaves at `now`, before its acknowledgment fields
    /// are filled: what the outbound queue lets through, or else an
    /// acknowledgment in a packet of its own where one is due. A closed
    /// connection sends nothing but an acknowledgment that it owes.
    pub open spec fn transmit(self, now: u64) -> Option<PacketView> {
        if self.state == State::Idle {
            None
        } else if self.state != State::Closed && self.out_queue.sendable() is Some {
            Some(self.addressed(self.out_queue.outgoing(self.out_queue.sendable().unwrap(), now)))
        } else if self.ack_due {
            Some(self.addressed(self.bare_ack(now)))
        } else {
            None
        }
    }

    /// The connection after the packet of `transmit` has left at `now`.
    pub open spec fn after_transmit(self, now: u64) -> ConnectionView {
        if self.state == State::Idle {
            self
        } else if self.state != State::Closed && self.out_queue.sendable() is Some {
            let i = self.out_queue.sendable().unwrap();
            (ConnectionView {
                out_queue: self.out_queue.after_send(i, now),
                ack_due: self.ack_due && self.out_queue.entries[i].ty == PacketType::Syn,
                last_activity: now,
                ..self
            }).settled()
        } else if self.ack_due {
            (ConnectionView { ack_due: false, last_activity: now, ..self }).settled()
        } else {
            self
        }
    }

    /// The reset that ends the connection from this side, sent at `now`.
    pub open spec fn reset_packet(self, now: u64) -> PacketView {
        PacketView {
            ty: PacketType::Reset,
            connection_id: self.send_id,
            timestamp: clock_of(now),
            timestamp_difference: self.reply_delay,
            window_size: 0,
            seq_nr: self.out_queue.next_seq,
            ack_nr: self.in_queue.ack_nr(),
            selective_ack: None,
            payload: Seq::empty(),
        }
    }
}

/// A reset ends a connection that is in use, whatever state it is in: the
/// connection is closed, fails with a reset, and what was buffered is gone.
pub proof fn lemma_reset_closes(c: ConnectionView, p: PacketView, now: u64)
    requires
        c.may_transmit(),
        p.ty == PacketType::Reset,
    ensures
        c.received(p, now).state == State::Closed,
        c.received(p, now).failure == Some(Failure::Reset),
        c.received(p, now).in_queue.readable.len() == 0,
        c.received(p, now).out_queue.entries.len() == 0,
        c.received(p, now).read_result(1) == Err::<Seq<u8>, StreamError>(StreamError::Reset),
        c.received(p, now).write_result(seq![0u8]) == Err::<int, StreamError>(StreamError::Reset),
{
}

/// A closed connection stays closed, and a failure stays what it was:
/// neither packets nor ticks nor the application bring it back.
pub proof fn lemma_closed_is_final(c: ConnectionView, p: PacketView, bytes: Seq<u8>, max: int, now: u64)
    requires
        c.state == State::Closed,
    ensures
        c.received(p, now).state == State::Closed,
        c.received(p, now).failure == c.failure,
        c.ticked(now) == c,
        c.written(bytes) == c,
        c.closing() == c,
        c.after_read(max).state == State::Closed,
        c.after_read(max).failure == c.failure,
        c.after_transmit(now).state == State::Closed,
        c.after_transmit(now).failure == c.failure,
{
}

/// A connection without traffic for longer than the inactivity ceiling
/// fails with a timeout at the next tick.
pub proof fn lemma_idle_connection_times_out(c: ConnectionView, now: u64)
    requires
        c.may_transmit(),
        now >= c.last_activity,
        now - c.last_activity > INACTIVITY_CEILING,
    ensures
        c.ticked(now).state == State::Closed,
        c.ticked(now).failure == Some(Failure::Timeout),
        c.ticked(now).read_result(1) == Err::<Seq<u8>, StreamError>(StreamError::Timeout),
        c.ticked(now).write_result(seq![0u8]) == Err::<int, StreamError>(StreamError::Timeout),
{
}

/// A connection that has nothing to send stays as it is when it is asked.
pub proof fn lemma_nothing_to_transmit(c: ConnectionView, now: u64)
    requires
        c.transmit(now) is None,
    ensures
        c.after_transmit(now) == c,
{
}

// ---------------------------------------------------------------------------
// The connection
// ---------------------------------------------------------------------------

/// One end of a connection.
pub struct Connection {
    state: State,
    recv_id: u16,
    send_id: u16,
    in_queue: InQueue,
    out_queue: OutQueue,
    failure: Option<Failure>,
    peer_fin: Option<u16>,
    reply_delay: u32,
    last_activity: u64,
    ack_due: bool,
}

impl View for Connection {
    type V = ConnectionView;

    closed spec fn view(&self) -> ConnectionView {
        ConnectionView {
            state: self.state,
            recv_id: self.recv_id,
            send_id: self.send_id,
            in_queue: self.in_queue@,
            out_queue: self.out_queue@,
            failure: self.failure,
            peer_fin: self.peer_fin,
            reply_delay: self.reply_delay,
            last_activity: self.last_activity,
            ack_due: self.ack_due,
        }
    }
}

/// The reading of the 32-bit wrapping clock at `now`.
pub fn clock(now: u64) -> (r: u32)
    ensures
        r == clock_of(now),
{
    (now % 0x1_0000_0000) as u32
}

proof fn lemma_seq_after_one(seq: u16)
    ensures
        seq_after(seq, 1) == seq.wrapping_add(1),
{
    if seq == 0xFFFF {
        lemma_fundamental_div_mod_converse(0x1_0000, 0x1_0000, 1, 0);
    } else {
        lemma_fundamental_div_mod_converse(seq as int + 1, 0x1_0000, 0, seq as int + 1);
    }
}

impl Connection {
    /// The invariant of the connection.
    pub open spec fn wf(&self) -> bool {
        self@.wf()
    }

    /// A connection that is not in use yet.
    pub fn new(tuning: Tuning) -> (c: Connection)
        ensures
            c.wf(),
            c@ == ConnectionView::idle(tuning.limited()),
    {
        Connection {
            state: State::Idle,
            recv_id: 0,
            send_id: 0,
            in_queue: InQueue::new(0),
            out_queue: OutQueue::new(0, 0, tuning),
            failure: None,
            peer_fin: None,
            reply_delay: 0,
            last_activity: 0,
            ack_due: false,
        }
    }

    /// Where the connection stands.
    pub fn state(&self) -> (r: State)
        ensures
            r == self@.state,
    {
        self.state
    }

    /// Why the connection ended, if it did not end by being closed.
    pub fn failure(&self) -> (r: Option<Failure>)
        ensures
            r == self@.failure,
    {
        self.failure
    }

    /// The identifier that packets for this side carry.
    pub fn recv_id(&self) -> (r: u16)
        ensures
            r == self@.recv_id,
    {
        self.recv_id
    }

    /// The identifier that packets for the peer carry.
    pub fn send_id(&self) -> (r: u16)
        ensures
            r == self@.send_id,
    {
        self.send_id
    }

    /// Opens the connection at `now`, with the identifiers around `id` and
    /// the first packet numbered `first_seq`. Gives `false`, and changes
    /// nothing, unless the connection is idle.
    pub fn connect(&mut self, id: u16, first_seq: u16, now: u64) -> (opened: bool)
        requires
            old(self).wf(),
        ensures
            final(self).wf(),
            opened == (old(self)@.state == State::Idle),
            opened ==> final(self)@ == old(self)@.connecting(id, first_seq, now),
            !opened ==> final(self)@ == old(self)@,
    {
        match self.state {
            State::Idle => {},
            _ => {
                return false;
            },
        }
        let tuning: Tuning = self.out_queue.tuning();
        let ids: (u16, u16) = sequential_identifiers(id);
        self.recv_id = ids.0;
        self.send_id = ids.1;
        self.in_queue = InQueue::new(0);
        self.out_queue = OutQueue::new(ids.1, first_seq, tuning);
        let _ = self.out_queue.push_control(PacketType::Syn);
        self.state = State::HandshakeSent;
        self.failure = None;
        self.peer_fin = None;
        self.reply_delay = 0;
        self.last_activity = now;
        self.ack_due = false;
        true
    }

    /// Takes the packet with which a peer opens a connection, at `now`,
    /// and numbers this side's packets from `first_seq`. The acknowledgment
    /// that completes the handshake is then due. Gives `false`, and changes
    /// nothing, unless the connection is idle and the packet opens one.
    pub fn accept_packet(&mut self, syn: &Packet, first_seq: u16, now: u64) -> (accepted: bool)
        requires
            old(self).wf(),
        ensures
            final(self).wf(),
            accepted == (old(self)@.state == State::Idle && syn.ty == PacketType::Syn),
            accepted ==> final(self)@ == old(self)@.accepting(syn@, first_seq, now),
            !accepted ==> final(self)@ == old(self)@,
    {
        match self.state {
            State::Idle => {},
            _ => {
                return false;
            },
        }
        match syn.ty {
            PacketType::Syn => {},
            _ => {
                return false;
            },
        }
        let tuning: Tuning = self.out_queue.tuning();
        proof {
            lemma_seq_after_one(syn.connection_id);
            lemma_seq_after_one(syn.seq_nr);
        }
        self.recv_id = syn.connection_id.wrapping_add(1);
        self.send_id = syn.connection_id;
        self.in_queue = InQueue::new(syn.seq_nr.wrapping_add(1));
        self.out_queue = OutQueue::new(syn.connection_id, first_seq, tuning);
        self.state = State::HandshakeReceived;
        self.failure = None;
        self.peer_fin = None;
        self.reply_delay = clock(now).wrapping_sub(syn.timestamp);
        self.last_activity = now;
        self.ack_due = true;
        true
    }

    /// Ends the connection with a failure and drops what was buffered.
    fn fail(&mut self, failure: Failure)
        requires
            old(self).wf(),
        ensures
            final(self).wf(),
            final(self)@ == old(self)@.failed(failure),
    {
        let tuning: Tuning = self.out_queue.tuning();
        self.in_queue = InQueue::new(self.in_queue.next_seq());
        self.out_queue = OutQueue::new(self.send_id, self.out_queue.next_seq(), tuning);
        self.state = State::Closed;
        self.failure = Some(failure);
        self.ack_due = false;
    }

    /// Tells whether the peer's stream was delivered to its end.
    pub fn at_end_of_stream(&self) -> (r: bool)
        ensures
            r == self@.at_end_of_stream(),
    {
        match self.peer_fin {
            Some(fin) => {
                proof {
                    lemma_seq_after_one(fin);
                }
                self.in_queue.next_seq() == fin.wrapping_add(1)
            },
            None => false,
        }
    }

    /// Closes the connection if both directions are done.
    fn settle(&mut self)
        requires
            old(self).wf(),
        ensures
            final(self).wf(),
            final(self)@ == old(self)@.settled(),
    {
        let closing: bool = match self.state {
            State::FinSent => true,
            _ => false,
        };
        if closing && self.out_queue.len() == 0 && self.at_end_of_stream() && !self.ack_due {
            self.state = State::Closed;
        }
    }

    /// Takes in data, an acknowledgment or the end of the peer's stream.
    fn absorb(&mut self, packet: Packet, now: u64)
        requires
            old(self).wf(),
        ensures
            final(self).wf(),
            final(self)@ == old(self)@.absorbed(packet@, now),
    {
        let bare: bool = match packet.ty {
            PacketType::State => true,
            PacketType::Data => false,
            PacketType::Fin => false,
            _ => {
                return ;
            },
        };
        let _ = self.out_queue.on_ack(
            packet.ack_nr,
            &packet.selective_ack,
            packet.window_size,
            packet.timestamp_difference,
            bare,
            now,
        );
        self.reply_delay = clock(now).wrapping_sub(packet.timestamp);
        self.last_activity = now;
        match packet.ty {
            PacketType::Data => {
                self.in_queue.on_packet(packet);
                self.ack_due = true;
            },
            PacketType::Fin => {
                if self.peer_fin.is_none() {
                    self.peer_fin = Some(packet.seq_nr);
                }
                match self.state {
                    State::Connected => {
                        self.state = State::FinReceived;
                    },
                    _ => {},
                }
                let end = Packet {
                    ty: PacketType::Fin,
                    connection_id: packet.connection_id,
                    timestamp: packet.timestamp,
                    timestamp_difference: packet.timestamp_difference,
                    window_size: packet.window_size,
                    seq_nr: packet.seq_nr,
                    ack_nr: packet.ack_nr,
                    selective_ack: None,
                    payload: Vec::new(),
                };
                self.in_queue.on_packet(end);
                self.ack_due = true;
            },
            _ => {},
        }
        self.settle();
    }

    /// Takes in a packet that arrived at `now`.
    pub fn on_packet(&mut self, packet: Packet, now: u64)
        requires
            old(self).wf(),
        ensures
            final(self).wf(),
            final(self)@ == old(self)@.received(packet@, now),
    {
        match self.state {
            State::Idle => {
                return ;
            },
            State::Closed => {
                match packet.ty {
                    PacketType::Fin => {
                        if self.failure.is_none() {
                            self.ack_due = true;
                        }
                    },
                    _ => {},
                }
                return ;
            },
            _ => {},
        }
        match packet.ty {
            PacketType::Reset => {
                self.fail(Failure::Reset);
                return ;
            },
            _ => {},
        }
        match self.state {
            State::HandshakeSent => {
                let acks_syn: bool = match packet.ty {
                    PacketType::State => match self.out_queue.first_seq() {
                        Some(seq) => packet.ack_nr == seq,
                        None => false,
                    },
                    _ => false,
                };
                if acks_syn {
                    let _ = self.out_queue.on_ack(
                        packet.ack_nr,
                        &packet.selective_ack,
                        packet.window_size,
                        packet.timestamp_difference,
                        true,
                        now,
                    );
                    self.in_queue = InQueue::new(packet.seq_nr);
                    self.state = State::Connected;
                    self.reply_delay = clock(now).wrapping_sub(packet.timestamp);
                    self.last_activity = now;
                }
            },
            State::HandshakeReceived => {
                match packet.ty {
                    PacketType::Syn => {
                        self.ack_due = true;
                        self.last_activity = now;
                    },
                    _ => {
                        self.state = State::Connected;
                        self.absorb(packet, now);
                    },
                }
            },
            _ => {
                match packet.ty {
                    PacketType::Syn => {},
                    _ => {
                        self.absorb(packet, now);
                    },
                }
            },
        }
    }

    /// Checks the timers at `now`: marks what is to be sent again, and
    /// gives the connection up where the peer has been silent for too long.
    pub fn tick(&mut self, now: u64)
        requires
            old(self).wf(),
        ensures
            final(self).wf(),
            final(self)@ == old(self)@.ticked(now),
    {
        match self.state {
            State::Idle => {
                return ;
            },
            State::Closed => {
                return ;
            },
            _ => {},
        }
        let ghost before = self@;
        let checked = self.out_queue.retransmission_check(now);
        let idle: u64 = if now >= self.last_activity {
            now - self.last_activity
        } else {
            0
        };
        match checked {
            Err(_) => {
                proof {
                    assert(self@.failed(Failure::Timeout) == before.failed(Failure::Timeout));
                }
                self.fail(Failure::Timeout);
            },
            Ok(_) => {
                if idle > INACTIVITY_CEILING {
                    proof {
                        assert(self@.failed(Failure::Timeout) == before.failed(Failure::Timeout));
                    }
                    self.fail(Failure::Timeout);
                } else {
                    self.settle();
                }
            },
        }
    }

    /// Takes in bytes that the application wrote. Gives the number of bytes
    /// taken; `WouldBlock` while the handshake is under way or
    /// `MAX_DELTA_SEQ` packets wait for their acknowledgment; the failure
    /// of the connection if it failed; `NotConnected` if it is not open for
    /// writing otherwise.
    pub fn write(&mut self, bytes: &[u8]) -> (r: Result<usize, StreamError>)
        requires
            old(self).wf(),
        ensures
            final(self).wf(),
            final(self)@ == old(self)@.written(bytes@),
            match r {
                Ok(n) => old(self)@.write_result(bytes@) == Ok::<int, StreamError>(n as int),
                Err(e) => old(self)@.write_result(bytes@) == Err::<int, StreamError>(e),
            },
    {
        match self.state {
            State::Closed => {
                match self.failure {
                    Some(Failure::Reset) => Err(StreamError::Reset),
                    Some(Failure::Timeout) => Err(StreamError::Timeout),
                    None => Err(StreamError::NotConnected),
                }
            },
            State::Idle => Err(StreamError::NotConnected),
            State::FinSent => Err(StreamError::NotConnected),
            State::HandshakeSent => Err(StreamError::WouldBlock),
            State::HandshakeReceived => Err(StreamError::WouldBlock),
            _ => {
                match self.out_queue.push(bytes) {
                    Some(n) => Ok(n),
                    None => Err(StreamError::WouldBlock),
                }
            },
        }
    }

    /// Hands the application up to `max` bytes of the stream. Gives no
    /// bytes at the end of the stream; `WouldBlock` where there are none
    /// yet; the failure of the connection if it failed.
    pub fn read(&mut self, max: usize) -> (r: Result<Vec<u8>, StreamError>)
        requires
            old(self).wf(),
        ensures
            final(self).wf(),
            final(self)@ == old(self)@.after_read(max as int),
            match r {
                Ok(bytes) => old(self)@.read_result(max as int) == Ok::<Seq<u8>, StreamError>(
                    bytes@,
                ),
                Err(e) => old(self)@.read_result(max as int) == Err::<Seq<u8>, StreamError>(e),
            },
    {
        match self.failure {
            Some(Failure::Reset) => {
                return Err(StreamError::Reset);
            },
            Some(Failure::Timeout) => {
                return Err(StreamError::Timeout);
            },
            None => {},
        }
        match self.state {
            State::Idle => {
                return Err(StreamError::NotConnected);
            },
            _ => {},
        }
        let ghost before = self@;
        if self.in_queue.readable_len() > 0 {
            let bytes: Vec<u8> = self.in_queue.read(max);
            return Ok(bytes);
        }
        let closed: bool = match self.state {
            State::Closed => true,
            _ => false,
        };
        if closed || self.at_end_of_stream() {
            proof {
                assert(before.in_queue.consume(0) =~= before.in_queue) by {
                    assert(before.in_queue.readable.subrange(0, 0) =~= before.in_queue.readable);
                }
            }
            Ok(Vec::new())
        } else {
            Err(StreamError::WouldBlock)
        }
    }

    /// Closes the connection from this side. An open connection queues the
    /// packet that ends its stream; what was written before is still
    /// delivered. Gives `WouldBlock`, and changes nothing, where the
    /// outbound queue has no room for that packet.
    pub fn close(&mut self) -> (r: Result<(), StreamError>)
        requires
            old(self).wf(),
        ensures
            final(self).wf(),
            final(self)@ == old(self)@.closing(),
            r is Ok <==> old(self)@.can_close(),
            r matches Err(e) ==> e == StreamError::WouldBlock,
    {
        match self.state {
            State::Connected => {
                if self.out_queue.push_control(PacketType::Fin) {
                    self.state = State::FinSent;
                    Ok(())
                } else {
                    Err(StreamError::WouldBlock)
                }
            },
            State::FinReceived => {
                if self.out_queue.push_control(PacketType::Fin) {
                    self.state = State::FinSent;
                    Ok(())
                } else {
                    Err(StreamError::WouldBlock)
                }
            },
            State::Idle => {
                self.state = State::Closed;
                Ok(())
            },
            State::HandshakeSent => {
                self.state = State::Closed;
                Ok(())
            },
            State::HandshakeReceived => {
                self.state = State::Closed;
                Ok(())
            },
            _ => Ok(()),
        }
    }

    /// The bytes that this side is willing to receive beyond what waits to
    /// be read.
    fn window_size(&self) -> (r: u32)
        ensures
            r == receive_window(self@.in_queue),
    {
        let waiting: usize = self.in_queue.readable_len();
        if waiting >= MAX_WINDOW_SIZE {
            0
        } else {
            (MAX_WINDOW_SIZE - waiting) as u32
        }
    }

    /// Hands out the next packet to put on the wire at `now`, if there is
    /// one: what the outbound queue lets through, or else an acknowledgment
    /// in a packet of its own where one is due. Every packet but the one
    /// that opens the connection carries what the inbound queue has to
    /// acknowledge.
    pub fn poll_transmit(&mut self, now: u64) -> (r: Option<Packet>)
        requires
            old(self).wf(),
        ensures
            final(self).wf(),
            final(self)@ == old(self)@.after_transmit(now),
            match r {
                None => old(self)@.transmit(now) is None,
                Some(p) => {
                    &&& old(self)@.transmit(now) == Some(
                        PacketView { ack_nr: 0, selective_ack: None, ..p@ },
                    )
                    &&& p@.valid()
                    &&& if p.ty == PacketType::Syn {
                        p.ack_nr == 0 && p.selective_ack is None
                    } else {
                        p.ack_nr == old(self)@.in_queue.ack_nr() && old(self)@.in_queue.marked_by(
                            p@.selective_ack,
                        )
                    }
                },
            },
    {
        let closed: bool = match self.state {
            State::Idle => {
                return None;
            },
            State::Closed => true,
            _ => false,
        };
        let window_size: u32 = self.window_size();
        let ack: (u16, Option<Vec<u8>>) = self.in_queue.ack_state();
        let data: Option<Packet> = if closed {
            None
        } else {
            self.out_queue.next_sendable(now)
        };
        match data {
            Some(p) => {
                self.last_activity = now;
                match p.ty {
                    PacketType::Syn => {
                        self.settle();
                        Some(
                            Packet {
                                ty: p.ty,
                                connection_id: self.recv_id,
                                timestamp: p.timestamp,
                                timestamp_difference: self.reply_delay,
                                window_size,
                                seq_nr: p.seq_nr,
                                ack_nr: 0,
                                selective_ack: None,
                                payload: p.payload,
                            },
                        )
                    },
                    _ => {
                        self.ack_due = false;
                        self.settle();
                        Some(
                            Packet {
                                ty: p.ty,
                                connection_id: self.send_id,
                                timestamp: p.timestamp,
                                timestamp_difference: self.reply_delay,
                                window_size,
                                seq_nr: p.seq_nr,
                                ack_nr: ack.0,
                                selective_ack: ack.1,
                                payload: p.payload,
                            },
                        )
                    },
                }
            },
            None => {
                if self.ack_due {
                    self.ack_due = false;
                    self.last_activity = now;
                    let seq_nr: u16 = self.out_queue.next_seq();
                    self.settle();
                    Some(
                        Packet {
                            ty: PacketType::State,
                            connection_id: self.send_id,
                            timestamp: clock(now),
                            timestamp_difference: self.reply_delay,
                            window_size,
                            seq_nr,
                            ack_nr: ack.0,
                            selective_ack: ack.1,
                            payload: Vec::new(),
                        },
                    )
                } else {
                    None
                }
            },
        }
    }

    /// Ends the connection from this side at once, at `now`: the connection
    /// fails with a reset and drops what was buffered. Gives the reset to
    /// send to the peer, or nothing where the connection is idle or closed
    /// already.
    pub fn reset(&mut self, now: u64) -> (r: Option<Packet>)
        requires
            old(self).wf(),
        ensures
            final(self).wf(),
            match r {
                None => !old(self)@.may_transmit() && final(self)@ == old(self)@,
                Some(p) => old(self)@.may_transmit() && p@ == old(self)@.reset_packet(now)
                    && final(self)@ == old(self)@.failed(Failure::Reset),
            },
    {
        match self.state {
            State::Idle => {
                return None;
            },
            State::Closed => {
                return None;
            },
            _ => {},
        }
        let ack: (u16, Option<Vec<u8>>) = self.in_queue.ack_state();
        let packet = Packet {
            ty: PacketType::Reset,
            connection_id: self.send_id,
            timestamp: clock(now),
            timestamp_difference: self.reply_delay,
            window_size: 0,
            seq_nr: self.out_queue.next_seq(),
            ack_nr: ack.0,
            selective_ack: None,
            payload: Vec::new(),
        };
        self.fail(Failure::Reset);
        Some(packet)
    }
}

} // verus!
