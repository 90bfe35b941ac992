//! The engine: the table of the connections that share one datagram
//! channel, and the queue of those that peers have opened.
//!
//! A connection is known by its peer and by the identifier that packets for
//! it carry. The engine routes each datagram to its connection, makes a new
//! connection for a peer that opens one, and gathers what the connections
//! have to send. Peers are numbers that the caller gives to addresses.

use crate::congestion::Tuning;
use crate::in_queue::seq_after;
use crate::packet::{decode, decoded, encode, encoded, DecodeError, Packet, PacketType, PacketView};
use crate::socket::{Connection, ConnectionView, State, StreamError};
use crate::util::{identifier_pair, next_u16, sequential_identifiers};
use crate::Failure;
use vstd::arithmetic::div_mod::lemma_fundamental_div_mod_converse;
use vstd::prelude::*;

verus! {

/// How often `open` draws identifiers before it gives up.
pub const OPEN_ATTEMPTS: usize = 8;

/// What a connection is known by.
#[derive(Clone, Copy, Debug, PartialEq, Eq, Hash, Structural)]
pub struct Key {
    /// The peer.
    pub peer: u64,
    /// The identifier that packets for the connection carry.
    pub id: u16,
}

/// What became of a datagram.
#[derive(Clone, Copy, Debug, PartialEq, Eq, Structural)]
pub enum Routed {
    /// It is no packet and was dropped.
    Malformed(DecodeError),
    /// It went to this connection.
    Delivered(Key),
    /// It opened this connection, which now waits to be accepted.
    Accepted(Key),
    /// It belongs to no connection and was dropped.
    Unclaimed,
}

/// Where a packet goes.
pub enum Route {
    /// To the connection at this place of the table.
    To(int),
    /// To a new connection.
    Spawn,
    /// Nowhere.
    Nowhere,
}

/// One connection of the table, as a mathematical value.
pub struct SlotView {
    /// The peer.
    pub peer: u64,
    /// The connection.
    pub connection: ConnectionView,
}

impl SlotView {
    /// What the connection is known by.
    pub open spec fn key(self) -> Key {
        Key { peer: self.peer, id: self.connection.recv_id }
    }
}

/// The first place from `from` on of the connection known by `key`, or the
/// length of `slots`.
pub open spec fn place_of(slots: Seq<SlotView>, key: Key, from: int) -> int
    decreases slots.len() - from,
{
    if from < 0 || from >= slots.len() {
        slots.len() as int
    } else if slots[from].key() == key {
        from
    } else {
        place_of(slots, key, from + 1)
    }
}

/// The first place from `from` on of a connection that has a packet to send
/// at `now`, or the length of `slots`.
pub open spec fn first_ready(slots: Seq<SlotView>, now: u64, from: int) -> int
    decreases slots.len() - from,
{
    if from < 0 || from >= slots.len() {
        slots.len() as int
    } else if slots[from].connection.transmit(now) is Some {
        from
    } else {
        first_ready(slots, now, from + 1)
    }
}

/// The engine as a mathematical value.
pub struct EngineView {
    /// The connections.
    pub slots: Seq<SlotView>,
    /// The connections that peers have opened and that were not accepted
    /// yet, oldest first.
    pub backlog: Seq<Key>,
    /// The tuning parameters of new connections.
    pub tuning: Tuning,
}

impl EngineView {
    /// The invariant of the engine: every connection keeps its own, and no
    /// two connections are known by the same peer and identifier.
    pub open spec fn wf(self) -> bool {
        &&& self.tuning.wf()
        &&& forall|i: int| 0 <= i < self.slots.len() ==> (#[trigger] self.slots[i]).connection.wf()
        &&& forall|i: int, j: int|
            0 <= i < j < self.slots.len() ==> (#[trigger] self.slots[i]).key() != (
            #[trigger] self.slots[j]).key()
    }

    /// An engine without connections.
    pub open spec fn empty(tuning: Tuning) -> EngineView {
        EngineView { slots: Seq::empty(), backlog: Seq::empty(), tuning }
    }

    /// The place of the connection known by `key`, if there is one.
    pub open spec fn find(self, key: Key) -> Option<int> {
        let i = place_of(self.slots, key, 0);
        if i < self.slots.len() {
            Some(i)
        } else {
            None
        }
    }

    /// The engine with the connection at `i` replaced.
    pub open spec fn with_connection(self, i: int, connection: ConnectionView) -> EngineView {
        EngineView {
            slots: self.slots.update(i, SlotView { peer: self.slots[i].peer, connection }),
            ..self
        }
    }

    /// The engine after a connection to `peer` was opened at `now` with the
    /// identifiers around `id`.
    pub open spec fn connected(self, peer: u64, id: u16, first_seq: u16, now: u64) -> EngineView {
        EngineView {
            slots: self.slots.push(
                SlotView {
                    peer,
                    connection: ConnectionView::idle(self.tuning).connecting(id, first_seq, now),
                },
            ),
            ..self
        }
    }

    /// Where the packet `p` from `peer` goes. A packet that opens a
    /// connection goes to the connection that an earlier copy of it has
    /// opened, or else to a new one. Any other packet goes to the
    /// connection whose identifier it carries, if there is one.
    pub open spec fn route(self, peer: u64, p: PacketView) -> Route {
        if p.ty == PacketType::Syn {
            match self.find(Key { peer, id: seq_after(p.connection_id, 1) }) {
                Some(i) => Route::To(i),
                None => Route::Spawn,
            }
        } else {
            match self.find(Key { peer, id: p.connection_id }) {
                Some(i) => Route::To(i),
                None => Route::Nowhere,
            }
        }
    }

    /// The engine after the packet `p` went to the connection at `i`.
    pub open spec fn delivered(self, i: int, p: PacketView, now: u64) -> EngineView {
        self.with_connection(i, self.slots[i].connection.received(p, now))
    }

    /// The engine after the packet `syn` of `peer` opened a connection,
    /// which joins the table and waits to be accepted.
    pub open spec fn spawned(self, peer: u64, syn: PacketView, first_seq: u16, now: u64)
        -> EngineView {
        let connection = ConnectionView::idle(self.tuning).accepting(syn, first_seq, now);
        EngineView {
            slots: self.slots.push(SlotView { peer, connection }),
            backlog: self.backlog.push(Key { peer, id: connection.recv_id }),
            ..self
        }
    }

    /// The engine after the datagram `datagram` arrived from `peer` at
    /// `now`. A datagram that is no packet, or that belongs to no
    /// connection and opens none, changes nothing.
    pub open spec fn received(self, peer: u64, datagram: Seq<u8>, first_seq: u16, now: u64)
        -> EngineView {
        match decoded(datagram) {
            Err(_) => self,
            Ok(p) => match self.route(peer, p) {
                Route::To(i) => self.delivered(i, p, now),
                Route::Spawn => self.spawned(peer, p, first_seq, now),
                Route::Nowhere => self,
            },
        }
    }

    /// What became of the datagram `datagram` that arrived from `peer`.
    pub open spec fn routed(self, peer: u64, datagram: Seq<u8>) -> Routed {
        match decoded(datagram) {
            Err(e) => Routed::Malformed(e),
            Ok(p) => match self.route(peer, p) {
                Route::To(i) => Routed::Delivered(self.slots[i].key()),
                Route::Spawn => Routed::Accepted(Key { peer, id: seq_after(p.connection_id, 1) }),
                Route::Nowhere => Routed::Unclaimed,
            },
        }
    }

    /// The engine after the timers of every connection were checked at
    /// `now`.
    pub open spec fn ticked(self, now: u64) -> EngineView {
        EngineView {
            slots: Seq::new(
                self.slots.len(),
                |i: int|
                    SlotView {
                        peer: self.slots[i].peer,
                        connection: self.slots[i].connection.ticked(now),
                    },
            ),
            ..self
        }
    }
}

/// A connection keeps the identifier it is known by through everything
/// that happens to it once it is open.
pub proof fn lemma_identifier_is_kept(c: ConnectionView, p: PacketView, bytes: Seq<u8>, max: int, now: u64)
    ensures
        c.received(p, now).recv_id == c.recv_id,
        c.ticked(now).recv_id == c.recv_id,
        c.written(bytes).recv_id == c.recv_id,
        c.after_read(max).recv_id == c.recv_id,
        c.closing().recv_id == c.recv_id,
        c.after_transmit(now).recv_id == c.recv_id,
        c.failed(Failure::Reset).recv_id == c.recv_id,
{
}

proof fn lemma_place_of(slots: Seq<SlotView>, key: Key, from: int)
    requires
        0 <= from <= slots.len(),
    ensures
        from <= place_of(slots, key, from) <= slots.len(),
        place_of(slots, key, from) < slots.len() ==> slots[place_of(slots, key, from)].key() == key,
        forall|k: int| from <= k < place_of(slots, key, from) ==> (#[trigger] slots[k]).key() != key,
    decreases slots.len() - from,
{
    if from < slots.len() && slots[from].key() != key {
        lemma_place_of(slots, key, from + 1);
    }
}

/// Replacing a connection by one that is known by the same identifier
/// keeps the invariant of the engine.
proof fn lemma_with_connection(e: EngineView, i: int, connection: ConnectionView)
    requires
        e.wf(),
        0 <= i < e.slots.len(),
        connection.wf(),
        connection.recv_id == e.slots[i].connection.recv_id,
    ensures
        e.with_connection(i, connection).wf(),
{
    let after = e.with_connection(i, connection);
    assert forall|a: int, b: int| 0 <= a < b < after.slots.len() implies (#[trigger] after.slots[a]).key()
        != (#[trigger] after.slots[b]).key() by {
        assert(after.slots[a].key() == e.slots[a].key());
        assert(after.slots[b].key() == e.slots[b].key());
    }
    assert forall|a: int| 0 <= a < after.slots.len() implies (#[trigger] after.slots[a]).connection.wf() by {
        if a != i {
            assert(after.slots[a] == e.slots[a]);
        }
    }
}

/// Adding a connection that is known by a new key keeps the invariant of
/// the engine.
proof fn lemma_push(e: EngineView, slot: SlotView)
    requires
        e.wf(),
        slot.connection.wf(),
        e.find(slot.key()) is None,
    ensures
        (EngineView { slots: e.slots.push(slot), ..e }).wf(),
{
    let after = EngineView { slots: e.slots.push(slot), ..e };
    lemma_place_of(e.slots, slot.key(), 0);
    assert forall|a: int, b: int| 0 <= a < b < after.slots.len() implies (#[trigger] after.slots[a]).key()
        != (#[trigger] after.slots[b]).key() by {
        assert(after.slots[a] == e.slots[a]);
        if b < e.slots.len() {
            assert(after.slots[b] == e.slots[b]);
        }
    }
    assert forall|a: int| 0 <= a < after.slots.len() implies (#[trigger] after.slots[a]).connection.wf() by {
        if a < e.slots.len() {
            assert(after.slots[a] == e.slots[a]);
        }
    }
}

// ---------------------------------------------------------------------------
// The engine
// ---------------------------------------------------------------------------

struct Slot {
    peer: u64,
    connection: Connection,
}

impl View for Slot {
    type V = SlotView;

    closed spec fn view(&self) -> SlotView {
        SlotView { peer: self.peer, connection: self.connection@ }
    }
}

spec fn slots_view(slots: Seq<Slot>) -> Seq<SlotView> {
    Seq::new(slots.len(), |i: int| slots[i]@)
}

/// The connections that share one datagram channel.
pub struct Engine {
    slots: Vec<Slot>,
    backlog: Vec<Key>,
    tuning: Tuning,
}

impl View for Engine {
    type V = EngineView;

    closed spec fn view(&self) -> EngineView {
        EngineView { slots: slots_view(self.slots@), backlog: self.backlog@, tuning: self.tuning }
    }
}

impl Engine {
    /// The invariant of the engine.
    pub open spec fn wf(&self) -> bool {
        self@.wf()
    }

    /// An engine without connections, whose connections will have the
    /// tuning parameters `tuning`.
    pub fn new(tuning: Tuning) -> (e: Engine)
        ensures
            e.wf(),
            e@ == EngineView::empty(tuning.limited()),
    {
        let e = Engine { slots: Vec::new(), backlog: Vec::new(), tuning: tuning.limit() };
        assert(e@.slots =~= Seq::<SlotView>::empty());
        e
    }

    /// Number of connections in the table.
    pub fn len(&self) -> (r: usize)
        ensures
            r == self@.slots.len(),
    {
        self.slots.len()
    }

    /// Number of connections that peers have opened and that were not
    /// accepted yet.
    pub fn backlog_len(&self) -> (r: usize)
        ensures
            r == self@.backlog.len(),
    {
        self.backlog.len()
    }

    /// The place of the connection known by `key`.
    fn position(&self, key: Key) -> (r: Option<usize>)
        ensures
            match r {
                Some(i) => self@.find(key) == Some(i as int) && i < self@.slots.len()
                    && self@.slots[i as int].key() == key,
                None => self@.find(key) is None,
            },
    {
        let mut i: usize = 0;
        while i < self.slots.len()
            invariant
                i <= self.slots@.len(),
                place_of(self@.slots, key, i as int) == place_of(self@.slots, key, 0),
            decreases self.slots@.len() - i,
        {
            let slot = &self.slots[i];
            assert(self@.slots[i as int] == slot@);
            if slot.peer == key.peer && slot.connection.recv_id() == key.id {
                return Some(i);
            }
            i = i + 1;
        }
        None
    }

    /// Tells whether the table holds a connection known by `key`.
    pub fn contains(&self, key: Key) -> (r: bool)
        ensures
            r == self@.find(key) is Some,
    {
        self.position(key).is_some()
    }

    /// Where the connection known by `key` stands; `None` where there is
    /// none.
    pub fn state(&self, key: Key) -> (r: Option<State>)
        ensures
            r == match self@.find(key) {
                Some(i) => Some(self@.slots[i].connection.state),
                None => None,
            },
    {
        match self.position(key) {
            Some(i) => {
                assert(self@.slots[i as int] == self.slots@[i as int]@);
                Some(self.slots[i].connection.state())
            },
            None => None,
        }
    }

    /// Why the connection known by `key` ended, if it failed.
    pub fn failure(&self, key: Key) -> (r: Option<Failure>)
        ensures
            r == match self@.find(key) {
                Some(i) => self@.slots[i].connection.failure,
                None => None,
            },
    {
        match self.position(key) {
            Some(i) => {
                assert(self@.slots[i as int] == self.slots@[i as int]@);
                self.slots[i].connection.failure()
            },
            None => None,
        }
    }

    /// Opens a connection to `peer` at `now`, with the identifiers around
    /// `id` and the first packet numbered `first_seq`. Gives the key of the
    /// connection, or `None`, and changes nothing, where a connection to
    /// that peer is known by the same identifier already.
    pub fn connect(&mut self, peer: u64, id: u16, first_seq: u16, now: u64) -> (r: Option<Key>)
        requires
            old(self).wf(),
        ensures
            final(self).wf(),
            match r {
                Some(key) => key == (Key { peer, id: identifier_pair(id).0 }) && old(self)@.find(key)
                    is None && final(self)@ == old(self)@.connected(peer, id, first_seq, now),
                None => old(self)@.find(Key { peer, id: identifier_pair(id).0 }) is Some
                    && final(self)@ == old(self)@,
            },
    {
        let ghost before = self@;
        let ids: (u16, u16) = sequential_identifiers(id);
        let key = Key { peer, id: ids.0 };
        if self.position(key).is_some() {
            return None;
        }
        let mut connection = Connection::new(self.tuning);
        let _ = connection.connect(id, first_seq, now);
        let slot = Slot { peer, connection };
        proof {
            lemma_push(before, slot@);
        }
        self.slots.push(slot);
        assert(self@.slots =~= before.connected(peer, id, first_seq, now).slots);
        Some(key)
    }

    /// Opens a connection to `peer` at `now` with identifiers and a first
    /// sequence number drawn at random. Identifiers that are taken are
    /// drawn again, up to `OPEN_ATTEMPTS` times; `None` says that all were
    /// taken, and then nothing has changed. Where no connection to `peer`
    /// is in the table, none can be taken.
    pub fn open(&mut self, peer: u64, now: u64) -> (r: Option<Key>)
        requires
            old(self).wf(),
        ensures
            final(self).wf(),
            match r {
                Some(key) => exists|id: u16, first_seq: u16|
                    key == (Key { peer, id: identifier_pair(id).0 }) && old(self)@.find(key) is None
                        && final(self)@ == #[trigger] old(self)@.connected(peer, id, first_seq, now),
                None => final(self)@ == old(self)@,
            },
            (forall|id: u16| old(self)@.find(Key { peer, id }) is None) ==> r is Some,
    {
        let mut attempt: usize = 0;
        while attempt < OPEN_ATTEMPTS
            invariant
                self.wf(),
                self@ == old(self)@,
                attempt > 0 ==> exists|id: u16| old(self)@.find(Key { peer, id }) is Some,
            decreases OPEN_ATTEMPTS - attempt,
        {
            let id: u16 = next_u16();
            let first_seq: u16 = next_u16();
            match self.connect(peer, id, first_seq, now) {
                Some(key) => {
                    return Some(key);
                },
                None => {},
            }
            attempt = attempt + 1;
        }
        None
    }

    /// Runs `packet`, which arrived from `peer` at `now`, to where it
    /// belongs.
    fn deliver(&mut self, peer: u64, packet: Packet, first_seq: u16, now: u64) -> (r: Routed)
        requires
            old(self).wf(),
        ensures
            final(self).wf(),
            match old(self)@.route(peer, packet@) {
                Route::To(i) => r == Routed::Delivered(old(self)@.slots[i].key()) && final(self)@
                    == old(self)@.delivered(i, packet@, now),
                Route::Spawn => r == Routed::Accepted(
                    Key { peer, id: seq_after(packet.connection_id, 1) },
                ) && final(self)@ == old(self)@.spawned(peer, packet@, first_seq, now),
                Route::Nowhere => r == Routed::Unclaimed && final(self)@ == old(self)@,
            },
    {
        let ghost before = self@;
        let ghost p = packet@;
        let opens: bool = match packet.ty {
            PacketType::Syn => true,
            _ => false,
        };
        proof {
            if packet.connection_id == 0xFFFF {
                lemma_fundamental_div_mod_converse(0x1_0000, 0x1_0000, 1, 0);
            } else {
                lemma_fundamental_div_mod_converse(
                    packet.connection_id as int + 1,
                    0x1_0000,
                    0,
                    packet.connection_id as int + 1,
                );
            }
        }
        let key = Key {
            peer,
            id: if opens {
                packet.connection_id.wrapping_add(1)
            } else {
                packet.connection_id
            },
        };
        match self.position(key) {
            Some(i) => {
                let ghost raw = self.slots@;
                let mut slot: Slot = self.slots.remove(i);
                assert(slot@ == before.slots[i as int]);
                slot.connection.on_packet(packet, now);
                proof {
                    lemma_identifier_is_kept(before.slots[i as int].connection, p, Seq::empty(), 0, now);
                    lemma_with_connection(before, i as int, slot.connection@);
                }
                self.slots.insert(i, slot);
                assert(self@.slots =~= before.delivered(i as int, p, now).slots) by {
                    assert forall|k: int| 0 <= k < before.slots.len() implies self@.slots[k]
                        == before.delivered(i as int, p, now).slots[k] by {
                        if k != i {
                            assert(self.slots@[k] == raw[k]);
                            assert(before.slots[k] == raw[k]@);
                        }
                    }
                }
                Routed::Delivered(key)
            },
            None => {
                if opens {
                    let mut connection = Connection::new(self.tuning);
                    let _ = connection.accept_packet(&packet, first_seq, now);
                    let slot = Slot { peer, connection };
                    proof {
                        lemma_push(before, slot@);
                    }
                    self.slots.push(slot);
                    self.backlog.push(key);
                    assert(self@.slots =~= before.spawned(peer, p, first_seq, now).slots);
                    Routed::Accepted(key)
                } else {
                    Routed::Unclaimed
                }
            },
        }
    }

    /// Takes in a datagram that arrived from `peer` at `now`. A datagram
    /// that opens a connection makes one, whose packets are numbered from
    /// `first_seq`, and puts it into the queue of connections to accept.
    /// What is no packet or belongs nowhere is dropped.
    pub fn handle_datagram(&mut self, peer: u64, datagram: &[u8], first_seq: u16, now: u64) -> (r:
        Routed)
        requires
            old(self).wf(),
        ensures
            final(self).wf(),
            r == old(self)@.routed(peer, datagram@),
            final(self)@ == old(self)@.received(peer, datagram@, first_seq, now),
    {
        match decode(datagram) {
            Err(e) => Routed::Malformed(e),
            Ok(packet) => self.deliver(peer, packet, first_seq, now),
        }
    }

    /// Takes in a datagram that arrived from `peer` at `now`, as
    /// `handle_datagram` does with a first sequence number drawn at random.
    pub fn receive(&mut self, peer: u64, datagram: &[u8], now: u64) -> (r: Routed)
        requires
            old(self).wf(),
        ensures
            final(self).wf(),
            r == old(self)@.routed(peer, datagram@),
            exists|first_seq: u16|
                final(self)@ == #[trigger] old(self)@.received(peer, datagram@, first_seq, now),
    {
        let first_seq: u16 = next_u16();
        self.handle_datagram(peer, datagram, first_seq, now)
    }

    /// Hands out the oldest connection that a peer has opened and that was
    /// not accepted yet.
    pub fn accept(&mut self) -> (r: Option<Key>)
        requires
            old(self).wf(),
        ensures
            final(self).wf(),
            match r {
                Some(key) => old(self)@.backlog.len() > 0 && key == old(self)@.backlog[0]
                    && final(self)@ == (EngineView {
                    backlog: old(self)@.backlog.subrange(1, old(self)@.backlog.len() as int),
                    ..old(self)@
                }),
                None => old(self)@.backlog.len() == 0 && final(self)@ == old(self)@,
            },
    {
        if self.backlog.len() > 0 {
            let key: Key = self.backlog.remove(0);
            Some(key)
        } else {
            None
        }
    }

    /// Checks the timers of every connection at `now`.
    pub fn tick(&mut self, now: u64)
        requires
            old(self).wf(),
        ensures
            final(self).wf(),
            final(self)@ == old(self)@.ticked(now),
    {
        let ghost before = self@;
        let n: usize = self.slots.len();
        let mut i: usize = 0;
        assert(self@.slots =~= Seq::new(
            before.slots.len(),
            |k: int|
                if k < 0 {
                    SlotView {
                        peer: before.slots[k].peer,
                        connection: before.slots[k].connection.ticked(now),
                    }
                } else {
                    before.slots[k]
                },
        ));
        while i < n
            invariant
                before.wf(),
                n == before.slots.len(),
                n == self.slots@.len(),
                i <= n,
                self@.backlog == before.backlog,
                self@.tuning == before.tuning,
                self@.slots == Seq::new(
                    before.slots.len(),
                    |k: int|
                        if k < i {
                            SlotView {
                                peer: before.slots[k].peer,
                                connection: before.slots[k].connection.ticked(now),
                            }
                        } else {
                            before.slots[k]
                        },
                ),
            decreases n - i,
        {
            let ghost raw = self.slots@;
            let ghost mid = self@.slots;
            assert(mid[i as int] == before.slots[i as int]);
            let mut slot: Slot = self.slots.remove(i);
            slot.connection.tick(now);
            let ghost ticked = slot@;
            self.slots.insert(i, slot);
            assert forall|k: int| 0 <= k < n implies (#[trigger] self@.slots[k]) == (if k < i + 1 {
                SlotView {
                    peer: before.slots[k].peer,
                    connection: before.slots[k].connection.ticked(now),
                }
            } else {
                before.slots[k]
            }) by {
                if k != i {
                    assert(self.slots@[k] == raw[k]);
                    assert(mid[k] == raw[k]@);
                }
            }
            assert(self@.slots =~= Seq::new(
                before.slots.len(),
                |k: int|
                    if k < i + 1 {
                        SlotView {
                            peer: before.slots[k].peer,
                            connection: before.slots[k].connection.ticked(now),
                        }
                    } else {
                        before.slots[k]
                    },
            ));
            i = i + 1;
        }
        assert(self@.slots =~= before.ticked(now).slots);
        proof {
            let after = before.ticked(now);
            assert forall|a: int, b: int| 0 <= a < b < after.slots.len() implies (
            #[trigger] after.slots[a]).key() != (#[trigger] after.slots[b]).key() by {
                lemma_identifier_is_kept(
                    before.slots[a].connection,
                    before.slots[a].connection.bare_ack(0),
                    Seq::empty(),
                    0,
                    now,
                );
                lemma_identifier_is_kept(
                    before.slots[b].connection,
                    before.slots[b].connection.bare_ack(0),
                    Seq::empty(),
                    0,
                    now,
                );
                assert(after.slots[a].key() == before.slots[a].key());
                assert(after.slots[b].key() == before.slots[b].key());
            }
        }
    }

    /// Takes the connection at `i` out of the table to work on it.
    fn take(&mut self, i: usize) -> (slot: Slot)
        requires
            i < old(self)@.slots.len(),
        ensures
            slot@ == old(self)@.slots[i as int],
            final(self).slots@ == old(self).slots@.remove(i as int),
            final(self).slots@.len() + 1 == old(self)@.slots.len(),
            slots_view(final(self).slots@) == old(self)@.slots.remove(i as int),
            final(self).backlog == old(self).backlog,
            final(self).tuning == old(self).tuning,
    {
        assert(old(self)@.slots[i as int] == old(self).slots@[i as int]@);
        let slot: Slot = self.slots.remove(i);
        assert(slots_view(self.slots@) =~= old(self)@.slots.remove(i as int));
        slot
    }

    /// Puts the connection that `take` took from the place `i` back there.
    fn put_back(&mut self, i: usize, slot: Slot, Ghost(before): Ghost<EngineView>)
        requires
            before.wf(),
            i < before.slots.len(),
            old(self).slots@.len() + 1 == before.slots.len(),
            slots_view(old(self).slots@) == before.slots.remove(i as int),
            old(self)@.backlog == before.backlog,
            old(self)@.tuning == before.tuning,
            slot@.peer == before.slots[i as int].peer,
            slot@.connection.wf(),
            slot@.connection.recv_id == before.slots[i as int].connection.recv_id,
        ensures
            final(self).wf(),
            final(self)@ == before.with_connection(i as int, slot@.connection),
    {
        let ghost raw = self.slots@;
        let ghost put = slot@;
        proof {
            lemma_with_connection(before, i as int, slot@.connection);
        }
        self.slots.insert(i, slot);
        assert(self@.slots =~= before.with_connection(i as int, put.connection).slots) by {
            assert forall|k: int| 0 <= k < before.slots.len() implies self@.slots[k]
                == before.with_connection(i as int, put.connection).slots[k] by {
                if k < i {
                    assert(self.slots@[k] == raw[k]);
                    assert(slots_view(raw)[k] == before.slots.remove(i as int)[k]);
                } else if k > i {
                    assert(self.slots@[k] == raw[k - 1]);
                    assert(slots_view(raw)[k - 1] == before.slots.remove(i as int)[k - 1]);
                }
            }
        }
    }

    /// Takes in bytes that the application wrote to the connection known
    /// by `key`, as `Connection::write` does; `NotConnected` where there is
    /// no such connection.
    pub fn write(&mut self, key: Key, bytes: &[u8]) -> (r: Result<usize, StreamError>)
        requires
            old(self).wf(),
        ensures
            final(self).wf(),
            match old(self)@.find(key) {
                Some(i) => {
                    &&& final(self)@ == old(self)@.with_connection(
                        i,
                        old(self)@.slots[i].connection.written(bytes@),
                    )
                    &&& match r {
                        Ok(n) => old(self)@.slots[i].connection.write_result(bytes@) == Ok::<
                            int,
                            StreamError,
                        >(n as int),
                        Err(e) => old(self)@.slots[i].connection.write_result(bytes@) == Err::<
                            int,
                            StreamError,
                        >(e),
                    }
                },
                None => r == Err::<usize, StreamError>(StreamError::NotConnected) && final(self)@
                    == old(self)@,
            },
    {
        let ghost before = self@;
        match self.position(key) {
            Some(i) => {
                let mut slot: Slot = self.take(i);
                let r = slot.connection.write(bytes);
                proof {
                    lemma_identifier_is_kept(
                        before.slots[i as int].connection,
                        before.slots[i as int].connection.bare_ack(0),
                        bytes@,
                        0,
                        0,
                    );
                }
                self.put_back(i, slot, Ghost(before));
                r
            },
            None => Err(StreamError::NotConnected),
        }
    }

    /// Hands the application up to `max` bytes of the stream of the
    /// connection known by `key`, as `Connection::read` does;
    /// `NotConnected` where there is no such connection.
    pub fn read(&mut self, key: Key, max: usize) -> (r: Result<Vec<u8>, StreamError>)
        requires
            old(self).wf(),
        ensures
            final(self).wf(),
            match old(self)@.find(key) {
                Some(i) => {
                    &&& final(self)@ == old(self)@.with_connection(
                        i,
                        old(self)@.slots[i].connection.after_read(max as int),
                    )
                    &&& match r {
                        Ok(bytes) => old(self)@.slots[i].connection.read_result(max as int) == Ok::<
                            Seq<u8>,
                            StreamError,
                        >(bytes@),
                        Err(e) => old(self)@.slots[i].connection.read_result(max as int) == Err::<
                            Seq<u8>,
                            StreamError,
                        >(e),
                    }
                },
                None => r == Err::<Vec<u8>, StreamError>(StreamError::NotConnected) && final(self)@
                    == old(self)@,
            },
    {
        let ghost before = self@;
        match self.position(key) {
            Some(i) => {
                let mut slot: Slot = self.take(i);
                let r = slot.connection.read(max);
                proof {
                    lemma_identifier_is_kept(
                        before.slots[i as int].connection,
                        before.slots[i as int].connection.bare_ack(0),
                        Seq::empty(),
                        max as int,
                        0,
                    );
                }
                self.put_back(i, slot, Ghost(before));
                r
            },
            None => Err(StreamError::NotConnected),
        }
    }

    /// Closes the connection known by `key` from this side, as
    /// `Connection::close` does; `NotConnected` where there is no such
    /// connection.
    pub fn close(&mut self, key: Key) -> (r: Result<(), StreamError>)
        requires
            old(self).wf(),
        ensures
            final(self).wf(),
            match old(self)@.find(key) {
                Some(i) => {
                    &&& final(self)@ == old(self)@.with_connection(
                        i,
                        old(self)@.slots[i].connection.closing(),
                    )
                    &&& r is Ok <==> old(self)@.slots[i].connection.can_close()
                    &&& r matches Err(e) ==> e == StreamError::WouldBlock
                },
                None => r == Err::<(), StreamError>(StreamError::NotConnected) && final(self)@
                    == old(self)@,
            },
    {
        let ghost before = self@;
        match self.position(key) {
            Some(i) => {
                let mut slot: Slot = self.take(i);
                let r = slot.connection.close();
                proof {
                    lemma_identifier_is_kept(
                        before.slots[i as int].connection,
                        before.slots[i as int].connection.bare_ack(0),
                        Seq::empty(),
                        0,
                        0,
                    );
                }
                self.put_back(i, slot, Ghost(before));
                r
            },
            None => Err(StreamError::NotConnected),
        }
    }

    /// Ends the connection known by `key` at once, at `now`, as
    /// `Connection::reset` does. Gives the peer and the datagram to send to
    /// it, or nothing where there is no such connection or it is idle or
    /// closed already.
    pub fn reset(&mut self, key: Key, now: u64) -> (r: Option<(u64, Vec<u8>)>)
        requires
            old(self).wf(),
        ensures
            final(self).wf(),
            match old(self)@.find(key) {
                Some(i) => if old(self)@.slots[i].connection.may_transmit() {
                    &&& r matches Some(out)
                    &&& out.0 == key.peer
                    &&& out.1@ == encoded(old(self)@.slots[i].connection.reset_packet(now))
                    &&& final(self)@ == old(self)@.with_connection(
                        i,
                        old(self)@.slots[i].connection.failed(Failure::Reset),
                    )
                } else {
                    r is None && final(self)@ == old(self)@
                },
                None => r is None && final(self)@ == old(self)@,
            },
    {
        let ghost before = self@;
        match self.position(key) {
            Some(i) => {
                let mut slot: Slot = self.take(i);
                let packet = slot.connection.reset(now);
                proof {
                    lemma_identifier_is_kept(
                        before.slots[i as int].connection,
                        before.slots[i as int].connection.bare_ack(0),
                        Seq::empty(),
                        0,
                        0,
                    );
                }
                self.put_back(i, slot, Ghost(before));
                match packet {
                    Some(p) => Some((key.peer, encode(&p))),
                    None => {
                        assert(self@.slots =~= before.slots);
                        None
                    },
                }
            },
            None => None,
        }
    }

    /// Hands out the datagram that the connection at `i` has to send at
    /// `now`, if it has one.
    fn transmit_from(&mut self, i: usize, now: u64) -> (r: Option<(u64, Vec<u8>)>)
        requires
            old(self).wf(),
            i < old(self)@.slots.len(),
        ensures
            final(self).wf(),
            final(self)@ == old(self)@.with_connection(
                i as int,
                old(self)@.slots[i as int].connection.after_transmit(now),
            ),
            match r {
                Some(out) => {
                    &&& out.0 == old(self)@.slots[i as int].peer
                    &&& decoded(out.1@) matches Ok(p)
                    &&& old(self)@.slots[i as int].connection.transmit(now) == Some(
                        PacketView { ack_nr: 0, selective_ack: None, ..p },
                    )
                },
                None => old(self)@.slots[i as int].connection.transmit(now) is None,
            },
    {
        let ghost before = self@;
        let mut slot: Slot = self.take(i);
        let packet = slot.connection.poll_transmit(now);
        proof {
            lemma_identifier_is_kept(
                before.slots[i as int].connection,
                before.slots[i as int].connection.bare_ack(0),
                Seq::empty(),
                0,
                now,
            );
        }
        let peer: u64 = slot.peer;
        self.put_back(i, slot, Ghost(before));
        match packet {
            Some(p) => {
                let datagram: Vec<u8> = encode(&p);
                proof {
                    crate::packet::lemma_decode_encode(p@);
                }
                Some((peer, datagram))
            },
            None => None,
        }
    }

    /// Hands out the next datagram to put on the wire at `now` and the peer
    /// it is for: that of the first connection of the table that has a
    /// packet to send.
    pub fn poll_transmit(&mut self, now: u64) -> (r: Option<(u64, Vec<u8>)>)
        requires
            old(self).wf(),
        ensures
            final(self).wf(),
            ({
                let i = first_ready(old(self)@.slots, now, 0);
                if i < old(self)@.slots.len() {
                    &&& r matches Some(out)
                    &&& out.0 == old(self)@.slots[i].peer
                    &&& decoded(out.1@) matches Ok(p)
                    &&& old(self)@.slots[i].connection.transmit(now) == Some(
                        PacketView { ack_nr: 0, selective_ack: None, ..p },
                    )
                    &&& final(self)@ == old(self)@.with_connection(
                        i,
                        old(self)@.slots[i].connection.after_transmit(now),
                    )
                } else {
                    r is None && final(self)@ == old(self)@
                }
            }),
    {
        let ghost before = self@;
        let n: usize = self.slots.len();
        let mut i: usize = 0;
        while i < n
            invariant
                self.wf(),
                self@ == before,
                before == old(self)@,
                n == before.slots.len(),
                i <= n,
                first_ready(before.slots, now, i as int) == first_ready(before.slots, now, 0),
            decreases n - i,
        {
            let out = self.transmit_from(i, now);
            if out.is_some() {
                assert(before.slots[i as int].connection.transmit(now) is Some);
                assert(first_ready(before.slots, now, i as int) == i);
                return out;
            }
            assert(first_ready(before.slots, now, i as int) == first_ready(
                before.slots,
                now,
                i + 1,
            ));
            proof {
                crate::socket::lemma_nothing_to_transmit(before.slots[i as int].connection, now);
                assert(self@.slots =~= before.slots);
            }
            i = i + 1;
        }
        None
    }

    /// Takes the connection known by `key` out of the table. Gives `false`
    /// where there is none.
    pub fn release(&mut self, key: Key) -> (r: bool)
        requires
            old(self).wf(),
        ensures
            final(self).wf(),
            r == old(self)@.find(key) is Some,
            match old(self)@.find(key) {
                Some(i) => final(self)@ == (EngineView {
                    slots: old(self)@.slots.remove(i),
                    ..old(self)@
                }),
                None => final(self)@ == old(self)@,
            },
    {
        let ghost before = self@;
        match self.position(key) {
            Some(i) => {
                let _ = self.take(i);
                assert(self@.slots =~= before.slots.remove(i as int));
                assert forall|a: int, b: int| 0 <= a < b < self@.slots.len() implies (
                #[trigger] self@.slots[a]).key() != (#[trigger] self@.slots[b]).key() by {
                    let a0 = if a < i { a } else { a + 1 };
                    let b0 = if b < i { b } else { b + 1 };
                    assert(self@.slots[a] == before.slots[a0]);
                    assert(self@.slots[b] == before.slots[b0]);
                }
                assert forall|a: int| 0 <= a < self@.slots.len() implies (
                #[trigger] self@.slots[a]).connection.wf() by {
                    let a0 = if a < i { a } else { a + 1 };
                    assert(self@.slots[a] == before.slots[a0]);
                }
                true
            },
            None => false,
        }
    }
}

} // verus!
