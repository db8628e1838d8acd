//! The wire format, as specification functions: RFC 7541 prefix integers,
//! length-prefixed raw strings, and the five representation framings.
//!
//! The executable encoder and decoder are specified against these
//! functions, and the round-trip lemmas below relate the two directions.

use vstd::prelude::*;
use vstd::arithmetic::div_mod::lemma_fundamental_div_mod;
use crate::error::DecodeError;

verus! {

/// The largest value an N-bit prefix can hold: `2^N - 1`.
pub open spec fn prefix_max(prefix_bits: u32) -> u64
    recommends
        1 <= prefix_bits <= 8,
{
    if prefix_bits == 1 {
        1
    } else if prefix_bits == 2 {
        3
    } else if prefix_bits == 3 {
        7
    } else if prefix_bits == 4 {
        15
    } else if prefix_bits == 5 {
        31
    } else if prefix_bits == 6 {
        63
    } else if prefix_bits == 7 {
        127
    } else {
        255
    }
}

/// The little-endian base-128 continuation chain for `rem`: every octet but
/// the last carries its low 7 bits with the high bit set; the last octet has
/// the high bit clear.
pub open spec fn spec_encode_cont(rem: nat) -> Seq<u8>
    decreases rem,
{
    if rem < 128 {
        seq![rem as u8]
    } else {
        seq![((rem % 128) + 128) as u8] + spec_encode_cont(rem / 128)
    }
}

/// The prefix-integer encoding of `value` under an N-bit prefix.
/// The high `8 - N` bits of the first octet are zero; the caller ORs
/// representation flags over them.
pub open spec fn spec_encode_int(value: u64, prefix_bits: u32) -> Seq<u8>
    recommends
        1 <= prefix_bits <= 8,
{
    let m = prefix_max(prefix_bits);
    if value < m {
        seq![value as u8]
    } else {
        seq![m as u8] + spec_encode_cont((value - m) as nat)
    }
}

/// Reads a continuation chain starting at `i`; yields the mathematical value
/// and the index one past the chain, or `None` if no terminating octet
/// (high bit clear) arrives before the input ends.
pub open spec fn spec_decode_cont(data: Seq<u8>, i: int) -> Option<(nat, int)>
    decreases data.len() - i,
{
    if i < 0 || i >= data.len() {
        None
    } else if data[i] < 128 {
        Some((data[i] as nat, i + 1))
    } else {
        match spec_decode_cont(data, i + 1) {
            Some(r) => Some((((data[i] - 128) + 128 * r.0) as nat, r.1)),
            None => None,
        }
    }
}

/// Decoding a prefix integer from the front of `data`: the value and the
/// number of octets consumed, or the error the input forces.
pub open spec fn spec_decode_int(data: Seq<u8>, prefix_bits: u32) -> Result<(u64, int), DecodeError>
    recommends
        1 <= prefix_bits <= 8,
{
    if data.len() == 0 {
        Err(DecodeError::EmptyInput)
    } else {
        let m = prefix_max(prefix_bits);
        let n = (data[0] & (m as u8)) as u64;
        if n < m {
            Ok((n, 1))
        } else {
            match spec_decode_cont(data, 1) {
                None => Err(DecodeError::Truncated),
                Some(r) => if n + r.0 > u64::MAX {
                    Err(DecodeError::IntegerOverflow)
                } else {
                    Ok(((n + r.0) as u64, r.1))
                },
            }
        }
    }
}

/// A length-prefixed raw-octet string: `encode_int(len, 7)`, H flag clear,
/// then the octets themselves.
pub open spec fn spec_encode_string(s: Seq<u8>) -> Seq<u8>
    recommends
        s.len() <= u64::MAX,
{
    spec_encode_int(s.len() as u64, 7) + s
}

/// Decoding a string from the front of `data`: the octets and the total
/// consumption, or the error the input forces. A set H flag (high bit of
/// the first octet) is rejected.
pub open spec fn spec_decode_string(data: Seq<u8>) -> Result<(Seq<u8>, int), DecodeError> {
    match spec_decode_int(data, 7) {
        Err(e) => Err(e),
        Ok((len, c)) => if data[0] & 128 == 128 {
            Err(DecodeError::HuffmanUnsupported)
        } else if len > data.len() - c {
            Err(DecodeError::Truncated)
        } else {
            Ok((data.subrange(c, c + len), c + len))
        },
    }
}

/// ORs a representation's flag octet over the first octet of an integer
/// encoding, leaving the prefix field itself untouched.
pub open spec fn or_first(s: Seq<u8>, flag: u8) -> Seq<u8>
    recommends
        s.len() > 0,
{
    s.update(0, s[0] | flag)
}

/// The executable twin of `prefix_max`.
pub fn max_prefix_value(prefix_bits: u32) -> (m: u64)
    requires
        1 <= prefix_bits <= 8,
    ensures
        m == prefix_max(prefix_bits),
        1 <= m <= 255,
{
    match prefix_bits {
        1 => 1,
        2 => 3,
        3 => 7,
        4 => 15,
        5 => 31,
        6 => 63,
        7 => 127,
        _ => 255,
    }
}

/// A masked octet never exceeds the mask.
pub proof fn lemma_mask_le(b: u8, mask: u8)
    ensures
        b & mask <= mask,
{
    assert(b & mask <= mask) by (bit_vector);
}

/// A continuation chain, once read, ends past where it began and inside
/// the input.
pub proof fn lemma_decode_cont_bounds(data: Seq<u8>, i: int)
    ensures
        spec_decode_cont(data, i) matches Some(r) ==> i + 1 <= r.1 <= data.len(),
    decreases data.len() - i,
{
    if 0 <= i < data.len() && data[i] >= 128 {
        lemma_decode_cont_bounds(data, i + 1);
    }
}

/// A decoded integer consumes at least one octet and stays inside the input.
pub proof fn lemma_decode_int_bounds(data: Seq<u8>, prefix_bits: u32)
    ensures
        spec_decode_int(data, prefix_bits) matches Ok(r) ==> 1 <= r.1 <= data.len(),
{
    lemma_decode_cont_bounds(data, 1);
}

/// A decoded string consumes at least one octet and stays inside the input.
pub proof fn lemma_decode_string_bounds(data: Seq<u8>)
    ensures
        spec_decode_string(data) matches Ok(r) ==> 1 <= r.1 <= data.len(),
{
    lemma_decode_int_bounds(data, 7);
}

/// Masking with an all-ones-low-bits mask keeps any value that fits in it.
pub proof fn lemma_mask_id(b: u8, mask: u8)
    requires
        mask == 1 || mask == 3 || mask == 7 || mask == 15 || mask == 31 || mask == 63 || mask == 127
            || mask == 255,
        b <= mask,
    ensures
        b & mask == b,
{
    assert(b & mask == b) by (bit_vector)
        requires
            (mask == 1 || mask == 3 || mask == 7 || mask == 15 || mask == 31 || mask == 63 || mask
                == 127 || mask == 255) && b <= mask,
    ;
}

/// An octet below 128 never carries the high bit.
pub proof fn lemma_high_bit_clear(b: u8)
    requires
        b <= 127,
    ensures
        b & 128 != 128,
{
    assert(b & 128 != 128) by (bit_vector)
        requires
            b <= 127,
    ;
}

/// ORing a flag that lies outside the prefix field leaves the masked
/// prefix untouched.
pub proof fn lemma_flag_masked(e0: u8, flag: u8, mask: u8)
    requires
        mask == 1 || mask == 3 || mask == 7 || mask == 15 || mask == 31 || mask == 63 || mask == 127
            || mask == 255,
        e0 <= mask,
        flag & mask == 0,
    ensures
        (e0 | flag) & mask == e0,
{
    assert((e0 | flag) & mask == e0) by (bit_vector)
        requires
            (mask == 1 || mask == 3 || mask == 7 || mask == 15 || mask == 31 || mask == 63 || mask
                == 127 || mask == 255) && e0 <= mask && flag & mask == 0,
    ;
}

/// An integer encoding is never empty, and its first octet fits the
/// prefix field.
pub proof fn lemma_encode_int_first(value: u64, prefix_bits: u32)
    requires
        1 <= prefix_bits <= 8,
    ensures
        spec_encode_int(value, prefix_bits).len() >= 1,
        spec_encode_int(value, prefix_bits)[0] <= prefix_max(prefix_bits) as u8,
{
}

/// Decoding an integer whose encoding, with a representation flag ORed
/// over its first octet, sits at the front of `data`: the mask discards
/// the flag and the value comes back unharmed.
pub proof fn lemma_decode_int_flagged(data: Seq<u8>, value: u64, prefix_bits: u32, flag: u8)
    requires
        1 <= prefix_bits <= 8,
        flag & (prefix_max(prefix_bits) as u8) == 0,
        spec_encode_int(value, prefix_bits).len() <= data.len(),
        data.subrange(0, spec_encode_int(value, prefix_bits).len() as int) == or_first(
            spec_encode_int(value, prefix_bits),
            flag,
        ),
    ensures
        spec_decode_int(data, prefix_bits) == Ok::<(u64, int), DecodeError>(
            (value, spec_encode_int(value, prefix_bits).len() as int),
        ),
{
    let m = prefix_max(prefix_bits);
    let enc = spec_encode_int(value, prefix_bits);
    let flagged = or_first(enc, flag);
    assert(data[0] == data.subrange(0, enc.len() as int)[0]);
    assert(data[0] == enc[0] | flag);
    lemma_encode_int_first(value, prefix_bits);
    lemma_flag_masked(enc[0], flag, m as u8);
    if value < m {
        assert(enc[0] == value as u8);
    } else {
        let rem = (value - m) as nat;
        let tail = spec_encode_cont(rem);
        assert(enc[0] == m as u8);
        assert(data.subrange(1, 1 + tail.len() as int) =~= flagged.subrange(1, flagged.len() as int));
        assert(flagged.subrange(1, flagged.len() as int) =~= tail);
        lemma_decode_cont_prefix(data, 1, rem);
        assert(m + rem == value);
    }
}

/// Decoding a continuation chain that sits at position `i` of a larger
/// sequence recovers the chain's value and stops exactly past the chain.
pub proof fn lemma_decode_cont_prefix(data: Seq<u8>, i: int, rem: nat)
    requires
        0 <= i,
        i + spec_encode_cont(rem).len() <= data.len(),
        data.subrange(i, i + spec_encode_cont(rem).len()) == spec_encode_cont(rem),
    ensures
        spec_decode_cont(data, i) == Some((rem, i + spec_encode_cont(rem).len())),
    decreases rem,
{
    let enc = spec_encode_cont(rem);
    assert(data[i] == data.subrange(i, i + enc.len())[0]);
    if rem < 128 {
        assert(data[i] == rem as u8);
    } else {
        let tail = spec_encode_cont(rem / 128);
        assert(data[i] == ((rem % 128) + 128) as u8);
        assert(data.subrange(i + 1, i + 1 + tail.len()) =~= enc.subrange(
            1,
            enc.len() as int,
        ));
        assert(enc.subrange(1, enc.len() as int) =~= tail);
        lemma_decode_cont_prefix(data, i + 1, rem / 128);
        assert(data[i] >= 128);
        let r0 = (rem / 128);
        assert((data[i] - 128) as nat == rem % 128);
        lemma_fundamental_div_mod(rem as int, 128);
        assert(((data[i] - 128) + 128 * r0) as nat == rem);
    }
}

/// Decoding an integer whose encoding sits at the front of `data` recovers
/// the value and consumes exactly the encoding's octets (the integer
/// round-trip law, stated for an arbitrary trailing remainder).
pub proof fn lemma_decode_int_prefix(data: Seq<u8>, value: u64, prefix_bits: u32)
    requires
        1 <= prefix_bits <= 8,
        spec_encode_int(value, prefix_bits).len() <= data.len(),
        data.subrange(0, spec_encode_int(value, prefix_bits).len() as int) == spec_encode_int(
            value,
            prefix_bits,
        ),
    ensures
        spec_decode_int(data, prefix_bits) == Ok::<(u64, int), DecodeError>(
            (value, spec_encode_int(value, prefix_bits).len() as int),
        ),
{
    let m = prefix_max(prefix_bits);
    let enc = spec_encode_int(value, prefix_bits);
    assert(data[0] == data.subrange(0, enc.len() as int)[0]);
    if value < m {
        assert(data[0] == value as u8);
        lemma_mask_id(value as u8, m as u8);
    } else {
        let rem = (value - m) as nat;
        let tail = spec_encode_cont(rem);
        assert(data[0] == m as u8);
        lemma_mask_id(m as u8, m as u8);
        assert(data.subrange(1, 1 + tail.len() as int) =~= enc.subrange(1, enc.len() as int));
        assert(enc.subrange(1, enc.len() as int) =~= tail);
        lemma_decode_cont_prefix(data, 1, rem);
        assert(m + rem == value);
    }
}

/// The integer round-trip law: decoding an encoding (alone, with no trailing
/// octets) yields the value back, with every octet consumed.
pub proof fn lemma_int_round_trip(value: u64, prefix_bits: u32)
    requires
        1 <= prefix_bits <= 8,
    ensures
        spec_decode_int(spec_encode_int(value, prefix_bits), prefix_bits) == Ok::<
            (u64, int),
            DecodeError,
        >((value, spec_encode_int(value, prefix_bits).len() as int)),
{
    let enc = spec_encode_int(value, prefix_bits);
    assert(enc.subrange(0, enc.len() as int) =~= enc);
    lemma_decode_int_prefix(enc, value, prefix_bits);
}

} // verus!
