//! Wrap-around arithmetic, clock conversions and connection identifiers.

use rand::Rng;
use std::time::Duration;
use vstd::arithmetic::div_mod::{
    lemma_fundamental_div_mod, lemma_fundamental_div_mod_converse, lemma_mod_multiples_vanish,
};
use vstd::arithmetic::power2::{
    lemma2_to64, lemma_pow2_adds, lemma_pow2_pos, lemma_pow2_strictly_increases, pow2,
};
use vstd::bits::{lemma_low_bits_mask_values, lemma_u32_low_bits_mask_is_mod, low_bits_mask};
use vstd::prelude::*;

verus! {

const NANOS_PER_MS: u32 = 1_000_000;

const NANOS_PER_MICRO: u32 = 1_000;

/// Mask that selects a 16-bit sequence number or connection identifier.
pub const SEQ_MASK: u32 = 0xFFFF;

// ---------------------------------------------------------------------------
// Wrap-around comparison
// ---------------------------------------------------------------------------

/// Distance from `from` up to `to` in the cyclic space selected by `mask`.
pub open spec fn wrapping_distance(from: u32, to: u32, mask: u32) -> u32 {
    to.wrapping_sub(from) & mask
}

/// `lhs` precedes `rhs` in the cyclic space selected by `mask`: the way up
/// from `lhs` to `rhs` is shorter than the way down.
pub open spec fn precedes(lhs: u32, rhs: u32, mask: u32) -> bool {
    wrapping_distance(lhs, rhs, mask) < wrapping_distance(rhs, lhs, mask)
}

/// The mask that keeps the low `bits` bits of a number, for `bits` up to 32.
/// The cyclic space that it selects has the modulus `pow2(bits)`.
pub open spec fn mask_of(bits: nat) -> u32 {
    low_bits_mask(bits) as u32
}

/// Distance from `from` up to `to` modulo `modulus`.
pub open spec fn modular_distance(from: int, to: int, modulus: int) -> int {
    (to - from) % modulus
}

/// Wrapping less than comparison
pub fn wrapping_lt(lhs: u32, rhs: u32, mask: u32) -> (r: bool)
    ensures
        r == precedes(lhs, rhs, mask),
{
    let dist_dn: u32 = lhs.wrapping_sub(rhs) & mask;
    let dist_up: u32 = rhs.wrapping_sub(lhs) & mask;

    dist_up < dist_dn
}

proof fn lemma_low_bit_mask(x: u32, bits: nat)
    requires
        bits <= 32,
    ensures
        mask_of(bits) + 1 == pow2(bits),
        (x & mask_of(bits)) as int == (x as int) % (pow2(bits) as int),
        0x1_0000_0000int % (pow2(bits) as int) == 0,
{
    lemma_pow2_pos(bits);
    lemma2_to64();
    lemma_low_bits_mask_values();
    if bits < 32 {
        lemma_pow2_strictly_increases(bits, 32);
        lemma_u32_low_bits_mask_is_mod(x, bits);
    } else {
        assert(x & 0xFFFF_FFFFu32 == x) by (bit_vector);
        lemma_fundamental_div_mod_converse(x as int, 0x1_0000_0000, 0, x as int);
    }
    lemma_pow2_adds(bits, (32 - bits) as nat);
    let q: int = pow2((32 - bits) as nat) as int;
    let m: int = pow2(bits) as int;
    assert(m * q == q * m) by (nonlinear_arith);
    lemma_fundamental_div_mod_converse(0x1_0000_0000, m, q, 0);
}

/// Under the mask of the low `bits` bits the wrapping distance is the
/// distance modulo `pow2(bits)`.
pub proof fn lemma_distance_is_modular(from: u32, to: u32, bits: nat)
    requires
        bits <= 32,
    ensures
        wrapping_distance(from, to, mask_of(bits)) == modular_distance(
            from as int,
            to as int,
            pow2(bits) as int,
        ),
{
    let m: int = pow2(bits) as int;
    let x: u32 = to.wrapping_sub(from);
    lemma_low_bit_mask(x, bits);
    let q: int = 0x1_0000_0000int / m;
    lemma_fundamental_div_mod(0x1_0000_0000int, m);
    assert(0x1_0000_0000int == m * q);
    if to - from < 0 {
        assert(x as int == (to - from) + m * q);
        lemma_mod_multiples_vanish(q, to - from, m);
        assert(m * q == q * m) by (nonlinear_arith);
    }
}

/// Going up from `a` to `b` and then on up from `b` to `a` makes one full
/// turn, unless the two coincide in the cyclic space.
pub proof fn lemma_distances_complement(a: u32, b: u32, bits: nat)
    requires
        bits <= 32,
    ensures
        wrapping_distance(a, b, mask_of(bits)) == 0 <==> wrapping_distance(b, a, mask_of(bits))
            == 0,
        wrapping_distance(a, b, mask_of(bits)) != 0 ==> wrapping_distance(a, b, mask_of(bits))
            + wrapping_distance(b, a, mask_of(bits)) == pow2(bits),
{
    let m: int = pow2(bits) as int;
    lemma_pow2_pos(bits);
    lemma_distance_is_modular(a, b, bits);
    lemma_distance_is_modular(b, a, bits);
    let x: int = b as int - a as int;
    let up: int = x % m;
    let q: int = x / m;
    lemma_fundamental_div_mod(x, m);
    if up != 0 {
        assert(-x == (-q - 1) * m + (m - up)) by (nonlinear_arith)
            requires
                x == m * q + up,
        ;
        lemma_fundamental_div_mod_converse(-x, m, -q - 1, m - up);
    } else {
        assert(-x == (-q) * m + 0) by (nonlinear_arith)
            requires
                x == m * q + up,
                up == 0,
        ;
        lemma_fundamental_div_mod_converse(-x, m, -q, 0);
    }
}

/// `wrapping_lt` agrees with the order of the cyclic space wherever `rhs`
/// lies less than half the modulus away from `lhs`: it holds when `rhs` is
/// that close above `lhs`, and fails when `rhs` is that close below.
pub proof fn lemma_wrapping_lt_agrees_with_modular_order(lhs: u32, rhs: u32, bits: nat)
    requires
        bits <= 32,
    ensures
        ({
            let up = modular_distance(lhs as int, rhs as int, pow2(bits) as int);
            0 < up && 2 * up < pow2(bits) ==> precedes(lhs, rhs, mask_of(bits)) && !precedes(
                rhs,
                lhs,
                mask_of(bits),
            )
        }),
        ({
            let down = modular_distance(rhs as int, lhs as int, pow2(bits) as int);
            0 < down && 2 * down < pow2(bits) ==> !precedes(lhs, rhs, mask_of(bits)) && precedes(
                rhs,
                lhs,
                mask_of(bits),
            )
        }),
{
    lemma_distance_is_modular(lhs, rhs, bits);
    lemma_distance_is_modular(rhs, lhs, bits);
    lemma_distances_complement(lhs, rhs, bits);
    lemma_distances_complement(rhs, lhs, bits);
}

/// `wrapping_lt` never holds both ways, whatever the mask.
pub proof fn lemma_wrapping_lt_asymmetric(a: u32, b: u32, mask: u32)
    ensures
        !(precedes(a, b, mask) && precedes(b, a, mask)),
{
}

/// Under the mask of the low `bits` bits `wrapping_lt` holds exactly one way
/// whenever the two numbers differ in the cyclic space and are not exactly
/// half the modulus apart.
pub proof fn lemma_wrapping_lt_antisymmetric(a: u32, b: u32, bits: nat)
    requires
        bits <= 32,
        modular_distance(a as int, b as int, pow2(bits) as int) != 0,
        2 * modular_distance(a as int, b as int, pow2(bits) as int) != pow2(bits),
    ensures
        precedes(a, b, mask_of(bits)) != precedes(b, a, mask_of(bits)),
{
    lemma_distance_is_modular(a, b, bits);
    lemma_distances_complement(a, b, bits);
}

/// The mask of 16-bit sequence numbers keeps the low 16 bits.
pub proof fn lemma_seq_mask()
    ensures
        SEQ_MASK == mask_of(16),
        pow2(16) == 0x1_0000,
{
    lemma_low_bits_mask_values();
    lemma2_to64();
}

/// Of two different 16-bit sequence numbers that are not 32768 apart,
/// exactly one precedes the other.
pub proof fn lemma_sequence_numbers_ordered(a: u16, b: u16)
    requires
        a != b,
        modular_distance(a as int, b as int, 0x1_0000) != 0x8000,
    ensures
        precedes(a as u32, b as u32, SEQ_MASK) != precedes(b as u32, a as u32, SEQ_MASK),
{
    lemma_seq_mask();
    let d: int = modular_distance(a as int, b as int, 0x1_0000);
    if d == 0 {
        if b >= a {
            lemma_fundamental_div_mod_converse(
                b as int - a as int,
                0x1_0000,
                0,
                b as int - a as int,
            );
        } else {
            lemma_fundamental_div_mod_converse(
                b as int - a as int,
                0x1_0000,
                -1,
                b as int - a as int + 0x1_0000,
            );
        }
    }
    lemma_wrapping_lt_antisymmetric(a as u32, b as u32, 16);
}

// ---------------------------------------------------------------------------
// Clock conversions
// ---------------------------------------------------------------------------

/// The whole seconds that a `Duration` holds.
pub uninterp spec fn duration_secs(d: Duration) -> u64;

/// The part of a `Duration` below one second, in nanoseconds.
pub uninterp spec fn duration_subsec_nanos(d: Duration) -> u32;

/// Milliseconds in a span of `secs` seconds and `subsec_nanos` nanoseconds,
/// where a span of more than 30 seconds counts as 30 seconds.
pub open spec fn millis_of(secs: u64, subsec_nanos: u32) -> int {
    if secs > 30 {
        30_000
    } else {
        secs * 1000 + subsec_nanos as int / 1_000_000
    }
}

/// Microseconds in a span of `secs` seconds and `subsec_nanos` nanoseconds,
/// modulo 2^32.
pub open spec fn wrapping_micros_of(secs: u64, subsec_nanos: u32) -> int {
    (secs * 1_000_000 + subsec_nanos as int / 1_000) % 0x1_0000_0000
}

/// `Duration::as_secs`: the number of whole seconds in the duration.
#[verifier::external_body]
fn whole_secs(duration: &Duration) -> (r: u64)
    ensures
        r == duration_secs(*duration),
{
    duration.as_secs()
}

/// `Duration::subsec_nanos`: the fractional part of the duration in
/// nanoseconds.
#[verifier::external_body]
fn subsec_nanos(duration: &Duration) -> (r: u32)
    ensures
        r == duration_subsec_nanos(*duration),
{
    duration.subsec_nanos()
}

/// Milliseconds of a span given by its whole seconds and its nanoseconds
/// below a second, limited to 30 seconds.
pub fn millis_from_parts(secs: u64, subsec_nanos: u32) -> (r: u64)
    ensures
        r == millis_of(secs, subsec_nanos),
{
    // Lets just limit to 30 seconds
    if secs > 30 {
        30_000
    } else {
        let sub_secs: u32 = subsec_nanos / NANOS_PER_MS;
        secs * 1000 + sub_secs as u64
    }
}

/// Wrapping microseconds of a span given by its whole seconds and its
/// nanoseconds below a second.
pub fn wrapping_micros_from_parts(secs: u64, subsec_nanos: u32) -> (r: u32)
    ensures
        r == wrapping_micros_of(secs, subsec_nanos),
{
    // Wrapping is OK
    let scaled: u64 = secs.wrapping_mul(1_000_000u64);
    let low: u32 = (scaled & 0xFFFF_FFFFu64) as u32;
    let micros: u32 = subsec_nanos / NANOS_PER_MICRO;
    let ret: u32 = low.wrapping_add(micros);
    proof {
        let full: int = secs as int * 1_000_000;
        let two32: int = 0x1_0000_0000;
        let two64: int = 0x1_0000_0000_0000_0000;
        assert(scaled as int == full % two64) by {
            assert(secs as nat * 1_000_000u64 as nat == full);
        }
        assert(low as int == (scaled as int) % two32) by {
            assert((scaled & 0xFFFF_FFFFu64) == scaled % 0x1_0000_0000u64) by (bit_vector);
        }
        // scaled = full - k * 2^64, hence scaled = full (mod 2^32)
        let k: int = full / two64;
        lemma_fundamental_div_mod(full, two64);
        assert(scaled as int == full - two64 * k);
        assert(full - two64 * k == full + (-(k * 0x1_0000_0000)) * two32) by (nonlinear_arith)
            requires
                two64 == 0x1_0000_0000 * two32,
        ;
        lemma_mod_multiples_vanish(-(k * 0x1_0000_0000), full, two32);
        assert(low as int == full % two32);
        // low + micros = full + micros (mod 2^32)
        let q: int = full / two32;
        lemma_fundamental_div_mod(full, two32);
        assert(full + micros == two32 * q + (low + micros));
        assert(two32 * q == q * two32) by (nonlinear_arith);
        lemma_mod_multiples_vanish(q, low as int + micros as int, two32);
        assert((full + micros) % two32 == (low + micros) % two32);
        if low + micros >= two32 {
            lemma_fundamental_div_mod_converse(low + micros, two32, 1, low + micros - two32);
        } else {
            lemma_fundamental_div_mod_converse(low + micros, two32, 0, low as int + micros as int);
        }
    }
    ret
}

/// Milliseconds in `duration`, limited to 30 seconds.
pub fn as_ms(duration: Duration) -> (r: u64)
    ensures
        r == millis_of(duration_secs(duration), duration_subsec_nanos(duration)),
{
    let secs: u64 = whole_secs(&duration);
    let nanos: u32 = subsec_nanos(&duration);
    millis_from_parts(secs, nanos)
}

/// Microseconds in `duration` as a 32-bit clock reading that wraps around.
pub fn as_wrapping_micros(duration: Duration) -> (r: u32)
    ensures
        r == wrapping_micros_of(duration_secs(duration), duration_subsec_nanos(duration)),
{
    let secs: u64 = whole_secs(&duration);
    let nanos: u32 = subsec_nanos(&duration);
    wrapping_micros_from_parts(secs, nanos)
}

// ---------------------------------------------------------------------------
// Connection identifiers
// ---------------------------------------------------------------------------

/// The identifier pair built around `id`: `id` and its successor, or, where
/// `id` is the largest 16-bit value, its predecessor and `id`.
pub open spec fn identifier_pair(id: u16) -> (u16, u16) {
    if id < 0xFFFF {
        (id, (id + 1) as u16)
    } else {
        ((id - 1) as u16, id)
    }
}

/// Two sequential connection identifiers around `id`.
///
/// This avoids an overflow when `id` is the largest representable value in
/// u16 and it is incremented to yield the corresponding sender identifier.
pub fn sequential_identifiers(id: u16) -> (r: (u16, u16))
    ensures
        r == identifier_pair(id),
        r.1 == r.0 + 1,
{
    if id.checked_add(1).is_some() {
        (id, id + 1)
    } else {
        (id - 1, id)
    }
}

/// `rand::thread_rng` followed by `Rng::gen::<u16>`: a value drawn from the
/// calling thread's generator. Nothing is claimed of the value.
#[verifier::external_body]
pub(crate) fn next_u16() -> u16 {
    let mut rng = rand::thread_rng();
    rng.gen::<u16>()
}

/// Safely generates two sequential connection identifiers.
///
/// The first is drawn at random; whatever was drawn, the second is the first
/// plus one and neither wraps around.
pub fn generate_sequential_identifiers() -> (r: (u16, u16))
    ensures
        r.1 == r.0 + 1,
        exists|id: u16| r == #[trigger] identifier_pair(id),
{
    let id: u16 = next_u16();

    sequential_identifiers(id)
}

} // verus!
