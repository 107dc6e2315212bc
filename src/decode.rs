//! Decoding a varint from the start of a byte sequence.
use crate::error::UVarintError;
use crate::model::{
    continues, decode_spec, lemma_radix_pow_increases, lemma_radix_pow_positive, lemma_scan_len_bounds,
    lemma_scan_len_skip, lemma_value_of_take_monotone, lemma_value_of_take_step, max_bytes,
    group, radix_pow, scan_len, supported_width, value_of,
};
use vstd::arithmetic::power2::{lemma2_to64, lemma_pow2_adds, pow2};
use vstd::prelude::*;

verus! {

/// The largest value of a `width`-bit unsigned integer, as a `u128`.
pub(crate) fn width_max(width: u32) -> (r: u128)
    requires
        supported_width(width as nat),
    ensures
        r as nat == pow2(width as nat) - 1,
{
    proof {
        lemma2_to64();
        lemma_pow2_adds(64, 64);
    }
    if width == 16 {
        0xFFFF
    } else if width == 32 {
        0xFFFF_FFFF
    } else if width == 64 {
        0xFFFF_FFFF_FFFF_FFFF
    } else {
        0xFFFF_FFFF_FFFF_FFFF_FFFF_FFFF_FFFF_FFFF
    }
}

/// The most bytes that a varint of a `width`-bit integer may take.
pub(crate) fn width_max_bytes(width: u32) -> (r: usize)
    requires
        supported_width(width as nat),
    ensures
        r as nat == max_bytes(width as nat),
        1 <= r <= 19,
{
    if width == 16 {
        3
    } else if width == 32 {
        5
    } else if width == 64 {
        10
    } else {
        19
    }
}

/// Whether `r` is the executable form of the model outcome `m`.
pub open spec fn decoded_as(r: Result<(usize, u128), UVarintError>, m: Result<(nat, nat), UVarintError>) -> bool {
    match r {
        Ok((n, v)) => m == Ok::<(nat, nat), UVarintError>((n as nat, v as nat)),
        Err(e) => m == Err::<(nat, nat), UVarintError>(e),
    }
}

/// Decodes a varint of a `width`-bit integer from the start of `data`, with
/// the value widened to `u128`.
pub fn decode_varint(data: &[u8], width: u32) -> (r: Result<(usize, u128), UVarintError>)
    requires
        supported_width(width as nat),
    ensures
        decoded_as(r, decode_spec(data@, width as nat)),
{
    let max: u128 = width_max(width);
    let max_len: usize = width_max_bytes(width);
    let ghost s = data@;
    let ghost w = width as nat;
    let mut value: u128 = 0;
    let mut scale: u128 = 1;
    let mut i: usize = 0;
    proof {
        reveal_with_fuel(radix_pow, 19);
        lemma_radix_pow_increases((max_len - 1) as nat, 18);
        assert(s.take(0) =~= Seq::<u8>::empty());
    }
    while i < data.len() && i < max_len
        invariant
            s == data@,
            w == width as nat,
            max as nat == pow2(w) - 1,
            max_len as nat == max_bytes(w),
            1 <= max_len <= 19,
            i <= data.len(),
            i <= max_len,
            value as nat == value_of(s.take(i as int)),
            value <= max,
            i < max_len ==> scale as nat == radix_pow(i as nat),
            radix_pow((max_len - 1) as nat) <= radix_pow(18),
            radix_pow(18) == 0x4000_0000_0000_0000_0000_0000_0000_0000,
            forall|j: int| 0 <= j < i ==> continues(#[trigger] s[j]),
        decreases max_len - i,
    {
        let byte = data[i];
        let group_bits = (byte & 0x7F) as u128;
        proof {
            assert(byte & 0x7F == byte % 128) by (bit_vector);
            lemma_value_of_take_step(s, i as nat);
            lemma_scan_len_skip(s, max_bytes(w), i as nat);
            lemma_radix_pow_positive(i as nat);
        }
        // Compare with the room left before multiplying, so that a group whose
        // weight would carry it past the width is caught as well.
        let room: u128 = max - value;
        if group_bits > room / scale {
            proof {
                let g = group_bits as int;
                let sc = scale as int;
                let q = room as int / sc;
                assert(g * sc > room) by (nonlinear_arith)
                    requires g > q, q == room as int / sc, sc >= 1;
                assert(s.skip(i as int)[0] == s[i as int]);
                assert(scan_len(s, max_bytes(w)) >= i + 1);
                lemma_scan_len_bounds(s, max_bytes(w));
                let k = scan_len(s, max_bytes(w));
                lemma_value_of_take_monotone(s, (i + 1) as nat, k);
                assert(group(s[i as int]) == group_bits as nat);
                assert(value_of(s.take(i + 1)) > max);
                assert(value_of(s.take(k as int)) >= pow2(w));
                assert(decode_spec(s, w) == Err::<(nat, nat), UVarintError>(UVarintError::Overflow));
            }
            return Err(UVarintError::Overflow);
        }
        proof {
            let g = group_bits as int;
            let sc = scale as int;
            let q = room as int / sc;
            assert(g * sc <= room) by (nonlinear_arith)
                requires g <= q, q == room as int / sc, sc >= 1;
        }
        value = value + group_bits * scale;
        if byte & 0x80 == 0 {
            proof {
                assert(byte & 0x80 == 0 ==> byte < 128) by (bit_vector);
                assert(s.skip(i as int)[0] == s[i as int]);
                assert(scan_len(s, max_bytes(w)) == i + 1);
                assert(value_of(s.take(i + 1)) == value as nat);
                assert(decode_spec(s, w) == Ok::<(nat, nat), UVarintError>(((i + 1) as nat, value as nat)));
            }
            return Ok((i + 1, value));
        }
        proof {
            assert(byte & 0x80 != 0 ==> byte >= 128) by (bit_vector);
        }
        i = i + 1;
        if i < max_len {
            proof {
                lemma_radix_pow_increases(i as nat, 18);
            }
            scale = scale * 128;
        }
    }
    proof {
        lemma_scan_len_skip(s, max_bytes(w), i as nat);
        assert(scan_len(s, max_bytes(w)) == i);
    }
    Err(UVarintError::Incomplete)
}

/// Decodes a varint of an unsigned 32-bit integer from the start of `data`,
/// giving the number of bytes consumed and the value.
///
/// At most 5 bytes are read. The decoder stops at the first byte whose high
/// bit is clear. It fails with `Overflow` when the groups read stand for a
/// value of 32 bits or more, and with `Incomplete` when `data` ends, or 5
/// bytes pass, without a final byte.
pub fn decode_u32(data: &[u8]) -> (r: Result<(usize, u32), UVarintError>)
    ensures
        match r {
            Ok((n, v)) => decode_spec(data@, 32) == Ok::<(nat, nat), UVarintError>((n as nat, v as nat)),
            Err(e) => decode_spec(data@, 32) == Err::<(nat, nat), UVarintError>(e),
        },
{
    proof {
        lemma2_to64();
    }
    match decode_varint(data, 32) {
        Ok((n, v)) => Ok((n, v as u32)),
        Err(e) => Err(e),
    }
}

/// Decodes a varint of an unsigned 64-bit integer from the start of `data`,
/// giving the number of bytes consumed and the value.
///
/// At most 10 bytes are read; the outcome is as for [`decode_u32`] with 64
/// bits in place of 32.
pub fn decode_u64(data: &[u8]) -> (r: Result<(usize, u64), UVarintError>)
    ensures
        match r {
            Ok((n, v)) => decode_spec(data@, 64) == Ok::<(nat, nat), UVarintError>((n as nat, v as nat)),
            Err(e) => decode_spec(data@, 64) == Err::<(nat, nat), UVarintError>(e),
        },
{
    proof {
        lemma2_to64();
    }
    match decode_varint(data, 64) {
        Ok((n, v)) => Ok((n, v as u64)),
        Err(e) => Err(e),
    }
}

/// Decodes a varint of an unsigned 128-bit integer from the start of `data`,
/// giving the number of bytes consumed and the value.
///
/// At most 19 bytes are read; the outcome is as for [`decode_u32`] with 128
/// bits in place of 32.
pub fn decode_u128(data: &[u8]) -> (r: Result<(usize, u128), UVarintError>)
    ensures
        match r {
            Ok((n, v)) => decode_spec(data@, 128) == Ok::<(nat, nat), UVarintError>((n as nat, v as nat)),
            Err(e) => decode_spec(data@, 128) == Err::<(nat, nat), UVarintError>(e),
        },
{
    decode_varint(data, 128)
}

} // verus!
