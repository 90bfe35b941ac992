//! The packet and its wire format.
//!
//! A datagram starts with a header of 20 bytes, all multi-byte fields in
//! network byte order:
//!
//! ```text
//!  0       4       8               16              24              32
//!  +-------+-------+---------------+---------------+---------------+
//!  | type  | ver   | extension     | connection_id                 |
//!  +-------+-------+---------------+---------------+---------------+
//!  | timestamp                                                     |
//!  +---------------+---------------+---------------+---------------+
//!  | timestamp_difference                                          |
//!  +---------------+---------------+---------------+---------------+
//!  | window_size                                                   |
//!  +---------------+---------------+---------------+---------------+
//!  | seq_nr                        | ack_nr                        |
//!  +---------------+---------------+---------------+---------------+
//! ```
//!
//! The `extension` byte names the kind of the first extension block, 0 for
//! none. Each block starts with the kind of the block after it (0 for none)
//! and its own length in bytes. The payload follows the last block.

use byteorder::{BigEndian, ByteOrder};
use vstd::prelude::*;
use vstd::slice::{slice_subrange, slice_to_vec};

verus! {

/// Length of the fixed header.
pub const HEADER_LEN: usize = 20;

/// Protocol version, the low half of the first byte.
pub const VERSION: u8 = 1;

/// Extension kind that ends the chain of extension blocks.
pub const EXTENSION_NONE: u8 = 0;

/// Extension kind of a selective acknowledgment.
pub const EXTENSION_SELECTIVE_ACK: u8 = 1;

/// Largest length that the length byte of an extension block can express.
pub const MAX_EXTENSION_LEN: usize = 255;

// ---------------------------------------------------------------------------
// Big-endian integers
// ---------------------------------------------------------------------------

/// The 16-bit number whose big-endian bytes are `hi`, `lo`.
pub open spec fn be16(hi: u8, lo: u8) -> u16 {
    (hi as int * 0x100 + lo as int) as u16
}

/// The 32-bit number whose big-endian bytes are `b3`, `b2`, `b1`, `b0`.
pub open spec fn be32(b3: u8, b2: u8, b1: u8, b0: u8) -> u32 {
    (b3 as int * 0x100_0000 + b2 as int * 0x1_0000 + b1 as int * 0x100 + b0 as int) as u32
}

/// Byte `k` of `v`, byte 0 being the least significant.
pub open spec fn byte_of(v: u32, k: int) -> u8 {
    if k == 0 {
        (v % 0x100) as u8
    } else if k == 1 {
        ((v / 0x100) % 0x100) as u8
    } else if k == 2 {
        ((v / 0x1_0000) % 0x100) as u8
    } else {
        ((v / 0x100_0000) % 0x100) as u8
    }
}

/// `<byteorder::BigEndian as byteorder::ByteOrder>::read_u16`: the first two
/// bytes of `buf`, read as a big-endian number. The outside function panics
/// on fewer than two bytes.
#[verifier::external_body]
fn read_u16(buf: &[u8]) -> (r: u16)
    requires
        buf@.len() >= 2,
    ensures
        r == be16(buf@[0], buf@[1]),
{
    BigEndian::read_u16(buf)
}

/// `<byteorder::BigEndian as byteorder::ByteOrder>::read_u32`: the first four
/// bytes of `buf`, read as a big-endian number. The outside function panics
/// on fewer than four bytes.
#[verifier::external_body]
fn read_u32(buf: &[u8]) -> (r: u32)
    requires
        buf@.len() >= 4,
    ensures
        r == be32(buf@[0], buf@[1], buf@[2], buf@[3]),
{
    BigEndian::read_u32(buf)
}

/// `<byteorder::BigEndian as byteorder::ByteOrder>::write_u16`: overwrites
/// the first two bytes of `buf` with the big-endian bytes of `v` and leaves
/// the others as they are. The outside function panics on fewer than two
/// bytes.
#[verifier::external_body]
fn write_u16(buf: &mut Vec<u8>, v: u16)
    requires
        old(buf)@.len() >= 2,
    ensures
        final(buf)@ == old(buf)@.update(0, byte_of(v as u32, 1)).update(1, byte_of(v as u32, 0)),
{
    BigEndian::write_u16(buf, v)
}

/// `<byteorder::BigEndian as byteorder::ByteOrder>::write_u32`: overwrites
/// the first four bytes of `buf` with the big-endian bytes of `v` and leaves
/// the others as they are. The outside function panics on fewer than four
/// bytes.
#[verifier::external_body]
fn write_u32(buf: &mut Vec<u8>, v: u32)
    requires
        old(buf)@.len() >= 4,
    ensures
        final(buf)@ == old(buf)@.update(0, byte_of(v, 3)).update(1, byte_of(v, 2)).update(
            2,
            byte_of(v, 1),
        ).update(3, byte_of(v, 0)),
{
    BigEndian::write_u32(buf, v)
}

/// The 16-bit big-endian number at `at` in `buf`.
fn read_u16_at(buf: &[u8], at: usize) -> (r: u16)
    requires
        at + 2 <= buf@.len(),
    ensures
        r == be16(buf@[at as int], buf@[at + 1]),
{
    let len: usize = buf.len();
    assert(at + 2 <= len);
    read_u16(slice_subrange(buf, at, at + 2))
}

/// The 32-bit big-endian number at `at` in `buf`.
fn read_u32_at(buf: &[u8], at: usize) -> (r: u32)
    requires
        at + 4 <= buf@.len(),
    ensures
        r == be32(buf@[at as int], buf@[at + 1], buf@[at + 2], buf@[at + 3]),
{
    let len: usize = buf.len();
    assert(at + 4 <= len);
    read_u32(slice_subrange(buf, at, at + 4))
}

/// Writes `v` as a 16-bit big-endian number at `at` in `buf`.
fn write_u16_at(buf: &mut Vec<u8>, at: usize, v: u16)
    requires
        at + 2 <= old(buf)@.len(),
    ensures
        final(buf)@ == old(buf)@.update(at as int, byte_of(v as u32, 1)).update(
            at + 1,
            byte_of(v as u32, 0),
        ),
{
    let len: usize = buf.len();
    assert(at + 2 <= len);
    let mut field: Vec<u8> = Vec::new();
    field.push(0u8);
    field.push(0u8);
    write_u16(&mut field, v);
    buf.set(at, field[0]);
    buf.set(at + 1, field[1]);
}

/// Writes `v` as a 32-bit big-endian number at `at` in `buf`.
fn write_u32_at(buf: &mut Vec<u8>, at: usize, v: u32)
    requires
        at + 4 <= old(buf)@.len(),
    ensures
        final(buf)@ == old(buf)@.update(at as int, byte_of(v, 3)).update(
            at + 1,
            byte_of(v, 2),
        ).update(at + 2, byte_of(v, 1)).update(at + 3, byte_of(v, 0)),
{
    let len: usize = buf.len();
    assert(at + 4 <= len);
    let mut field: Vec<u8> = Vec::new();
    field.push(0u8);
    field.push(0u8);
    field.push(0u8);
    field.push(0u8);
    write_u32(&mut field, v);
    buf.set(at, field[0]);
    buf.set(at + 1, field[1]);
    buf.set(at + 2, field[2]);
    buf.set(at + 3, field[3]);
}

/// Reading the big-endian bytes of a number gives the number back.
pub proof fn lemma_big_endian_round_trip(v: u32)
    ensures
        be32(byte_of(v, 3), byte_of(v, 2), byte_of(v, 1), byte_of(v, 0)) == v,
        v < 0x1_0000 ==> be16(byte_of(v, 1), byte_of(v, 0)) == v,
{
}

/// Appends the bytes of `src` to `out`.
pub fn append_bytes(out: &mut Vec<u8>, src: &[u8])
    ensures
        final(out)@ == old(out)@ + src@,
{
    let mut i: usize = 0;
    while i < src.len()
        invariant
            i <= src@.len(),
            out@ == old(out)@ + src@.subrange(0, i as int),
        decreases src@.len() - i,
    {
        out.push(src[i]);
        i = i + 1;
    }
    assert(src@.subrange(0, i as int) == src@);
}

// ---------------------------------------------------------------------------
// Packet
// ---------------------------------------------------------------------------

/// What a packet is for.
#[derive(Clone, Copy, Debug, PartialEq, Eq, Structural)]
pub enum PacketType {
    /// Carries payload.
    Data,
    /// Ends the sender's direction of the stream.
    Fin,
    /// Acknowledges; carries no payload.
    State,
    /// Terminates the connection at once.
    Reset,
    /// Opens a connection.
    Syn,
}

impl PacketType {
    /// The code of the type on the wire.
    pub open spec fn code(self) -> u8 {
        match self {
            PacketType::Data => 0,
            PacketType::Fin => 1,
            PacketType::State => 2,
            PacketType::Reset => 3,
            PacketType::Syn => 4,
        }
    }

    /// The type that the code stands for, if any.
    pub open spec fn of_code(code: u8) -> Option<PacketType> {
        if code == 0 {
            Some(PacketType::Data)
        } else if code == 1 {
            Some(PacketType::Fin)
        } else if code == 2 {
            Some(PacketType::State)
        } else if code == 3 {
            Some(PacketType::Reset)
        } else if code == 4 {
            Some(PacketType::Syn)
        } else {
            None
        }
    }

    /// The code of the type on the wire.
    pub fn to_code(self) -> (code: u8)
        ensures
            code == self.code(),
    {
        match self {
            PacketType::Data => 0,
            PacketType::Fin => 1,
            PacketType::State => 2,
            PacketType::Reset => 3,
            PacketType::Syn => 4,
        }
    }

    /// The type that the code stands for; `None` for a code that is not in
    /// use.
    pub fn from_code(code: u8) -> (ty: Option<PacketType>)
        ensures
            ty == PacketType::of_code(code),
    {
        if code == 0 {
            Some(PacketType::Data)
        } else if code == 1 {
            Some(PacketType::Fin)
        } else if code == 2 {
            Some(PacketType::State)
        } else if code == 3 {
            Some(PacketType::Reset)
        } else if code == 4 {
            Some(PacketType::Syn)
        } else {
            None
        }
    }
}

/// Why a datagram is not a packet.
#[derive(Clone, Copy, Debug, PartialEq, Eq, Structural)]
pub enum DecodeError {
    /// The datagram is shorter than the fixed header.
    TruncatedHeader,
    /// The type code is not in use.
    UnknownType,
    /// An extension block runs past the end of the datagram.
    ExtensionOverrun,
}

/// The logical content of one datagram.
#[derive(Clone, Debug, PartialEq, Eq)]
pub struct Packet {
    /// What the packet is for.
    pub ty: PacketType,
    /// Selects the receiving endpoint's connection.
    pub connection_id: u16,
    /// The sender's wrapping microsecond clock at the time of sending.
    pub timestamp: u32,
    /// The sender's latest measurement of the one-way delay towards it, 0 if
    /// unknown.
    pub timestamp_difference: u32,
    /// Bytes that the sender is willing to receive.
    pub window_size: u32,
    /// Sequence number of this packet.
    pub seq_nr: u16,
    /// Sequence number of the last packet received in order.
    pub ack_nr: u16,
    /// Which packets beyond `ack_nr + 1` have been received: bit `i`, counted
    /// from the least significant bit of the first byte, stands for
    /// `ack_nr + 2 + i`.
    pub selective_ack: Option<Vec<u8>>,
    /// The bytes carried.
    pub payload: Vec<u8>,
}

/// A packet as a mathematical value.
pub struct PacketView {
    pub ty: PacketType,
    pub connection_id: u16,
    pub timestamp: u32,
    pub timestamp_difference: u32,
    pub window_size: u32,
    pub seq_nr: u16,
    pub ack_nr: u16,
    pub selective_ack: Option<Seq<u8>>,
    pub payload: Seq<u8>,
}

/// The bytes of an optional byte vector.
pub open spec fn bytes_view(bytes: Option<Vec<u8>>) -> Option<Seq<u8>> {
    match bytes {
        Some(v) => Some(v@),
        None => None,
    }
}

impl View for Packet {
    type V = PacketView;

    open spec fn view(&self) -> PacketView {
        PacketView {
            ty: self.ty,
            connection_id: self.connection_id,
            timestamp: self.timestamp,
            timestamp_difference: self.timestamp_difference,
            window_size: self.window_size,
            seq_nr: self.seq_nr,
            ack_nr: self.ack_nr,
            selective_ack: bytes_view(self.selective_ack),
            payload: self.payload@,
        }
    }
}

impl PacketView {
    /// The packet can be written to the wire: the length of its selective
    /// acknowledgment fits the length byte of an extension block.
    pub open spec fn valid(self) -> bool {
        self.selective_ack matches Some(mask) ==> mask.len() <= MAX_EXTENSION_LEN
    }
}

// ---------------------------------------------------------------------------
// Wire format
// ---------------------------------------------------------------------------

/// The fixed header of `p`.
pub open spec fn header_bytes(p: PacketView) -> Seq<u8> {
    seq![
        (p.ty.code() * 16 + VERSION) as u8,
        if p.selective_ack is Some { EXTENSION_SELECTIVE_ACK } else { EXTENSION_NONE },
        byte_of(p.connection_id as u32, 1),
        byte_of(p.connection_id as u32, 0),
        byte_of(p.timestamp, 3),
        byte_of(p.timestamp, 2),
        byte_of(p.timestamp, 1),
        byte_of(p.timestamp, 0),
        byte_of(p.timestamp_difference, 3),
        byte_of(p.timestamp_difference, 2),
        byte_of(p.timestamp_difference, 1),
        byte_of(p.timestamp_difference, 0),
        byte_of(p.window_size, 3),
        byte_of(p.window_size, 2),
        byte_of(p.window_size, 1),
        byte_of(p.window_size, 0),
        byte_of(p.seq_nr as u32, 1),
        byte_of(p.seq_nr as u32, 0),
        byte_of(p.ack_nr as u32, 1),
        byte_of(p.ack_nr as u32, 0),
    ]
}

/// The extension blocks of `p`: one block for its selective acknowledgment,
/// if it has one.
pub open spec fn extension_bytes(p: PacketView) -> Seq<u8> {
    match p.selective_ack {
        Some(mask) => seq![EXTENSION_NONE, mask.len() as u8] + mask,
        None => Seq::empty(),
    }
}

/// The datagram that carries `p`.
pub open spec fn encoded(p: PacketView) -> Seq<u8> {
    header_bytes(p) + extension_bytes(p) + p.payload
}

/// Walks the chain of extension blocks of `bytes` that starts at `at` with a
/// block of kind `kind`. Gives the selective acknowledgment found (`found`,
/// or else the first block of that kind) and the place where the payload
/// starts, or `None` where a block runs past the end.
pub open spec fn extensions(bytes: Seq<u8>, at: int, kind: u8, found: Option<Seq<u8>>) -> Option<
    (Option<Seq<u8>>, int),
>
    decreases bytes.len() - at,
{
    if kind == EXTENSION_NONE {
        Some((found, at))
    } else if at < 0 || at + 2 > bytes.len() {
        None
    } else {
        let next = bytes[at];
        let len = bytes[at + 1] as int;
        if at + 2 + len > bytes.len() {
            None
        } else {
            let found = if kind == EXTENSION_SELECTIVE_ACK && found is None {
                Some(bytes.subrange(at + 2, at + 2 + len))
            } else {
                found
            };
            extensions(bytes, at + 2 + len, next, found)
        }
    }
}

/// The packet that the datagram `bytes` carries, or why it carries none.
pub open spec fn decoded(bytes: Seq<u8>) -> Result<PacketView, DecodeError> {
    if bytes.len() < HEADER_LEN {
        Err(DecodeError::TruncatedHeader)
    } else {
        match PacketType::of_code(bytes[0] / 16) {
            None => Err(DecodeError::UnknownType),
            Some(ty) => match extensions(bytes, HEADER_LEN as int, bytes[1], None) {
                None => Err(DecodeError::ExtensionOverrun),
                Some((selective_ack, payload_at)) => Ok(
                    PacketView {
                        ty,
                        connection_id: be16(bytes[2], bytes[3]),
                        timestamp: be32(bytes[4], bytes[5], bytes[6], bytes[7]),
                        timestamp_difference: be32(bytes[8], bytes[9], bytes[10], bytes[11]),
                        window_size: be32(bytes[12], bytes[13], bytes[14], bytes[15]),
                        seq_nr: be16(bytes[16], bytes[17]),
                        ack_nr: be16(bytes[18], bytes[19]),
                        selective_ack,
                        payload: bytes.subrange(payload_at, bytes.len() as int),
                    },
                ),
            },
        }
    }
}

/// Writes `packet` as a datagram.
pub fn encode(packet: &Packet) -> (bytes: Vec<u8>)
    requires
        packet@.valid(),
    ensures
        bytes@ == encoded(packet@),
{
    let mut out: Vec<u8> = Vec::new();
    let mut i: usize = 0;
    while i < HEADER_LEN
        invariant
            i <= HEADER_LEN,
            out@.len() == i,
        decreases HEADER_LEN - i,
    {
        out.push(0u8);
        i = i + 1;
    }
    let flag: u8 = if packet.selective_ack.is_some() {
        EXTENSION_SELECTIVE_ACK
    } else {
        EXTENSION_NONE
    };
    out.set(0, packet.ty.to_code() * 16 + VERSION);
    out.set(1, flag);
    write_u16_at(&mut out, 2, packet.connection_id);
    write_u32_at(&mut out, 4, packet.timestamp);
    write_u32_at(&mut out, 8, packet.timestamp_difference);
    write_u32_at(&mut out, 12, packet.window_size);
    write_u16_at(&mut out, 16, packet.seq_nr);
    write_u16_at(&mut out, 18, packet.ack_nr);
    assert(out@ =~= header_bytes(packet@));
    match &packet.selective_ack {
        Some(mask) => {
            out.push(EXTENSION_NONE);
            out.push(mask.len() as u8);
            append_bytes(&mut out, mask.as_slice());
            assert(out@ =~= header_bytes(packet@) + extension_bytes(packet@));
        },
        None => {
            assert(out@ =~= header_bytes(packet@) + extension_bytes(packet@));
        },
    }
    append_bytes(&mut out, packet.payload.as_slice());
    out
}

/// Reads a datagram as a packet.
///
/// Fails on a datagram that is shorter than the header, on a type code that
/// is not in use, and on an extension block that runs past the end.
/// Extension blocks of other kinds than the selective acknowledgment are
/// skipped; of several selective acknowledgments the first counts. The
/// version in the first byte is not looked at.
pub fn decode(bytes: &[u8]) -> (r: Result<Packet, DecodeError>)
    ensures
        match r {
            Ok(p) => decoded(bytes@) == Ok::<PacketView, DecodeError>(p@) && p@.valid(),
            Err(e) => decoded(bytes@) == Err::<PacketView, DecodeError>(e),
        },
{
    if bytes.len() < HEADER_LEN {
        return Err(DecodeError::TruncatedHeader);
    }
    let ty = match PacketType::from_code(bytes[0] / 16) {
        Some(ty) => ty,
        None => {
            return Err(DecodeError::UnknownType);
        },
    };
    let connection_id: u16 = read_u16_at(bytes, 2);
    let timestamp: u32 = read_u32_at(bytes, 4);
    let timestamp_difference: u32 = read_u32_at(bytes, 8);
    let window_size: u32 = read_u32_at(bytes, 12);
    let seq_nr: u16 = read_u16_at(bytes, 16);
    let ack_nr: u16 = read_u16_at(bytes, 18);

    let mut kind: u8 = bytes[1];
    let mut at: usize = HEADER_LEN;
    let mut found: Option<Vec<u8>> = None;
    while kind != EXTENSION_NONE
        invariant
            HEADER_LEN <= at <= bytes@.len(),
            PacketType::of_code(bytes@[0] / 16) == Some(ty),
            bytes_view(found) matches Some(mask) ==> mask.len() <= MAX_EXTENSION_LEN,
            extensions(bytes@, at as int, kind, bytes_view(found)) == extensions(
                bytes@,
                HEADER_LEN as int,
                bytes@[1],
                None,
            ),
        decreases bytes@.len() - at,
    {
        if bytes.len() - at < 2 {
            return Err(DecodeError::ExtensionOverrun);
        }
        let next: u8 = bytes[at];
        let len: usize = bytes[at + 1] as usize;
        if bytes.len() - at - 2 < len {
            return Err(DecodeError::ExtensionOverrun);
        }
        if kind == EXTENSION_SELECTIVE_ACK && found.is_none() {
            found = Some(slice_to_vec(slice_subrange(bytes, at + 2, at + 2 + len)));
        }
        at = at + 2 + len;
        kind = next;
    }
    let payload: Vec<u8> = slice_to_vec(slice_subrange(bytes, at, bytes.len()));
    Ok(
        Packet {
            ty,
            connection_id,
            timestamp,
            timestamp_difference,
            window_size,
            seq_nr,
            ack_nr,
            selective_ack: found,
            payload,
        },
    )
}

/// Reading what was written gives the packet back: every packet that can be
/// written decodes from its datagram to itself.
pub proof fn lemma_decode_encode(p: PacketView)
    requires
        p.valid(),
    ensures
        decoded(encoded(p)) == Ok::<PacketView, DecodeError>(p),
{
    let bytes = encoded(p);
    let header = header_bytes(p);
    assert(header.len() == HEADER_LEN);
    assert(forall|i: int| 0 <= i < HEADER_LEN ==> bytes[i] == header[i]);
    assert(bytes[0] / 16 == p.ty.code());
    assert(PacketType::of_code(p.ty.code()) == Some(p.ty));
    lemma_big_endian_round_trip(p.connection_id as u32);
    lemma_big_endian_round_trip(p.timestamp);
    lemma_big_endian_round_trip(p.timestamp_difference);
    lemma_big_endian_round_trip(p.window_size);
    lemma_big_endian_round_trip(p.seq_nr as u32);
    lemma_big_endian_round_trip(p.ack_nr as u32);
    reveal_with_fuel(extensions, 3);
    match p.selective_ack {
        Some(mask) => {
            let n = mask.len() as int;
            assert(bytes[20] == EXTENSION_NONE);
            assert(bytes[21] == n);
            assert(bytes.len() == 22 + n + p.payload.len());
            assert(bytes.subrange(22, 22 + n) =~= mask);
            assert(bytes.subrange(22 + n, bytes.len() as int) =~= p.payload);
            assert(extensions(bytes, 20, bytes[1], None) == Some((Some(mask), 22 + n)));
        },
        None => {
            assert(bytes.subrange(20, bytes.len() as int) =~= p.payload);
            assert(extensions(bytes, 20, bytes[1], None) == Some((None::<Seq<u8>>, 20int)));
        },
    }
    let q = decoded(bytes).unwrap();
    assert(q.connection_id == p.connection_id);
    assert(q.timestamp == p.timestamp);
    assert(q.timestamp_difference == p.timestamp_difference);
    assert(q.window_size == p.window_size);
    assert(q.seq_nr == p.seq_nr);
    assert(q.ack_nr == p.ack_nr);
}

/// Every packet read from a datagram can be written again.
pub proof fn lemma_decoded_is_valid(bytes: Seq<u8>)
    ensures
        decoded(bytes) matches Ok(p) ==> p.valid(),
{
    if bytes.len() >= HEADER_LEN {
        lemma_extensions_found_fits(bytes, HEADER_LEN as int, bytes[1], None);
    }
}

proof fn lemma_extensions_found_fits(bytes: Seq<u8>, at: int, kind: u8, found: Option<Seq<u8>>)
    requires
        found matches Some(mask) ==> mask.len() <= MAX_EXTENSION_LEN,
    ensures
        extensions(bytes, at, kind, found) matches Some((Some(mask), _)) ==> mask.len()
            <= MAX_EXTENSION_LEN,
    decreases bytes.len() - at,
{
    if kind != EXTENSION_NONE && at >= 0 && at + 2 <= bytes.len() {
        let next = bytes[at];
        let len = bytes[at + 1] as int;
        if at + 2 + len <= bytes.len() {
            let found2 = if kind == EXTENSION_SELECTIVE_ACK && found is None {
                Some(bytes.subrange(at + 2, at + 2 + len))
            } else {
                found
            };
            lemma_extensions_found_fits(bytes, at + 2 + len, next, found2);
        }
    }
}

} // verus!
