//! Encoding an integer as its minimal varint.
use crate::error::UVarintError;
use crate::model::encode_spec;
use vstd::prelude::*;

verus! {

/// Encodes `value` as its minimal varint, in a new vector.
pub(crate) fn encode_varint(value: u128) -> (r: Vec<u8>)
    ensures
        r@ == encode_spec(value as nat),
{
    if value == 0 {
        return vec![0x00];
    }
    let mut result: Vec<u8> = Vec::new();
    let mut rest: u128 = value;
    while rest > 0
        invariant
            rest > 0 ==> result@ + encode_spec(rest as nat) == encode_spec(value as nat),
            rest == 0 ==> result@ == encode_spec(value as nat),
        decreases rest,
    {
        let low: u128 = rest & 0x7F;
        proof {
            assert(rest & 0x7F == rest % 128) by (bit_vector);
        }
        let mut byte = low as u8;
        let ghost before = rest;
        let ghost prefix = result@;
        proof {
            assert(rest >> 7 == rest / 128) by (bit_vector);
        }
        rest = rest >> 7;
        if rest > 0 {
            proof {
                assert(byte < 128 ==> byte | 0x80 == byte + 128) by (bit_vector);
            }
            byte = byte | 0x80;
        }
        result.push(byte);
        proof {
            if rest > 0 {
                assert(encode_spec(before as nat) == seq![byte] + encode_spec(rest as nat));
                assert(result@ + encode_spec(rest as nat) =~= prefix + encode_spec(before as nat));
            } else {
                assert(encode_spec(before as nat) == seq![byte]);
                assert(result@ =~= prefix + encode_spec(before as nat));
            }
        }
    }
    result
}

/// Writes the minimal varint of `value` at the start of `buf`, giving the
/// number of bytes written.
///
/// Fails with `BufferTooSmall` exactly when the encoding is longer than
/// `buf`; the contents of `buf` are then unspecified. On success the bytes of
/// `buf` past the encoding are left as they were.
pub(crate) fn encode_varint_into(value: u128, buf: &mut [u8]) -> (r: Result<usize, UVarintError>)
    ensures
        final(buf)@.len() == old(buf)@.len(),
        r is Ok <==> encode_spec(value as nat).len() <= old(buf)@.len(),
        match r {
            Ok(n) => {
                &&& n == encode_spec(value as nat).len()
                &&& final(buf)@.take(n as int) == encode_spec(value as nat)
                &&& final(buf)@.skip(n as int) == old(buf)@.skip(n as int)
            },
            Err(e) => e == UVarintError::BufferTooSmall,
        },
{
    let ghost original = buf@;
    if buf.len() == 0 {
        return Err(UVarintError::BufferTooSmall);
    }
    if value == 0 {
        buf[0] = 0x00;
        proof {
            assert(buf@.take(1) =~= encode_spec(0));
            assert(buf@.skip(1) =~= original.skip(1));
        }
        return Ok(1);
    }
    let mut rest: u128 = value;
    let mut i: usize = 0;
    proof {
        assert(buf@.take(0) =~= Seq::<u8>::empty());
        assert(buf@.skip(0) =~= original.skip(0));
    }
    while rest > 0
        invariant
            original == old(buf)@,
            buf@.len() == original.len(),
            i <= buf@.len(),
            buf@.skip(i as int) == original.skip(i as int),
            rest > 0 ==> buf@.take(i as int) + encode_spec(rest as nat) == encode_spec(value as nat),
            rest == 0 ==> buf@.take(i as int) == encode_spec(value as nat),
        decreases rest,
    {
        if i >= buf.len() {
            proof {
                assert(encode_spec(rest as nat).len() >= 1);
            }
            return Err(UVarintError::BufferTooSmall);
        }
        let low: u128 = rest & 0x7F;
        proof {
            assert(rest & 0x7F == rest % 128) by (bit_vector);
        }
        let mut byte = low as u8;
        let ghost before = rest;
        let ghost prefix = buf@.take(i as int);
        let ghost tail = buf@.skip(i as int + 1);
        proof {
            assert(rest >> 7 == rest / 128) by (bit_vector);
        }
        rest = rest >> 7;
        if rest > 0 {
            proof {
                assert(byte < 128 ==> byte | 0x80 == byte + 128) by (bit_vector);
            }
            byte = byte | 0x80;
        }
        buf[i] = byte;
        i = i + 1;
        proof {
            assert(buf@.take(i as int) =~= prefix + seq![byte]);
            assert(buf@.skip(i as int) =~= tail);
            assert(original.skip(i as int) =~= original.skip(i - 1).drop_first());
            assert(tail =~= original.skip(i as int));
            if rest > 0 {
                assert(encode_spec(before as nat) == seq![byte] + encode_spec(rest as nat));
                assert(buf@.take(i as int) + encode_spec(rest as nat) =~= prefix + encode_spec(before as nat));
            } else {
                assert(encode_spec(before as nat) == seq![byte]);
                assert(buf@.take(i as int) =~= prefix + encode_spec(before as nat));
            }
        }
    }
    Ok(i)
}

/// Encodes `value` as its minimal varint: one byte per 7-bit group, least
/// significant group first, the high bit set on every byte but the last.
/// Zero is the single byte `0x00`.
pub fn encode_u16(value: u16) -> (r: Vec<u8>)
    ensures
        r@ == encode_spec(value as nat),
{
    encode_varint(value as u128)
}

/// Writes the minimal varint of `value` at the start of `buf`, giving the
/// number of bytes written.
///
/// Fails with `BufferTooSmall` exactly when the encoding is longer than
/// `buf`; the contents of `buf` are then unspecified. On success the bytes of
/// `buf` past the encoding are left as they were.
pub fn encode_u16_into(value: u16, buf: &mut [u8]) -> (r: Result<usize, UVarintError>)
    ensures
        final(buf)@.len() == old(buf)@.len(),
        r is Ok <==> encode_spec(value as nat).len() <= old(buf)@.len(),
        match r {
            Ok(n) => {
                &&& n == encode_spec(value as nat).len()
                &&& final(buf)@.take(n as int) == encode_spec(value as nat)
                &&& final(buf)@.skip(n as int) == old(buf)@.skip(n as int)
            },
            Err(e) => e == UVarintError::BufferTooSmall,
        },
{
    encode_varint_into(value as u128, buf)
}

/// Encodes `value` as its minimal varint: one byte per 7-bit group, least
/// significant group first, the high bit set on every byte but the last.
/// Zero is the single byte `0x00`.
pub fn encode_u32(value: u32) -> (r: Vec<u8>)
    ensures
        r@ == encode_spec(value as nat),
{
    encode_varint(value as u128)
}

/// Writes the minimal varint of `value` at the start of `buf`, giving the
/// number of bytes written.
///
/// Fails with `BufferTooSmall` exactly when the encoding is longer than
/// `buf`; the contents of `buf` are then unspecified. On success the bytes of
/// `buf` past the encoding are left as they were.
pub fn encode_u32_into(value: u32, buf: &mut [u8]) -> (r: Result<usize, UVarintError>)
    ensures
        final(buf)@.len() == old(buf)@.len(),
        r is Ok <==> encode_spec(value as nat).len() <= old(buf)@.len(),
        match r {
            Ok(n) => {
                &&& n == encode_spec(value as nat).len()
                &&& final(buf)@.take(n as int) == encode_spec(value as nat)
                &&& final(buf)@.skip(n as int) == old(buf)@.skip(n as int)
            },
            Err(e) => e == UVarintError::BufferTooSmall,
        },
{
    encode_varint_into(value as u128, buf)
}

/// Encodes `value` as its minimal varint: one byte per 7-bit group, least
/// significant group first, the high bit set on every byte but the last.
/// Zero is the single byte `0x00`.
pub fn encode_u64(value: u64) -> (r: Vec<u8>)
    ensures
        r@ == encode_spec(value as nat),
{
    encode_varint(value as u128)
}

/// Writes the minimal varint of `value` at the start of `buf`, giving the
/// number of bytes written.
///
/// Fails with `BufferTooSmall` exactly when the encoding is longer than
/// `buf`; the contents of `buf` are then unspecified. On success the bytes of
/// `buf` past the encoding are left as they were.
pub fn encode_u64_into(value: u64, buf: &mut [u8]) -> (r: Result<usize, UVarintError>)
    ensures
        final(buf)@.len() == old(buf)@.len(),
        r is Ok <==> encode_spec(value as nat).len() <= old(buf)@.len(),
        match r {
            Ok(n) => {
                &&& n == encode_spec(value as nat).len()
                &&& final(buf)@.take(n as int) == encode_spec(value as nat)
                &&& final(buf)@.skip(n as int) == old(buf)@.skip(n as int)
            },
            Err(e) => e == UVarintError::BufferTooSmall,
        },
{
    encode_varint_into(value as u128, buf)
}

/// Encodes `value` as its minimal varint: one byte per 7-bit group, least
/// significant group first, the high bit set on every byte but the last.
/// Zero is the single byte `0x00`.
pub fn encode_u128(value: u128) -> (r: Vec<u8>)
    ensures
        r@ == encode_spec(value as nat),
{
    encode_varint(value)
}

/// Writes the minimal varint of `value` at the start of `buf`, giving the
/// number of bytes written.
///
/// Fails with `BufferTooSmall` exactly when the encoding is longer than
/// `buf`; the contents of `buf` are then unspecified. On success the bytes of
/// `buf` past the encoding are left as they were.
pub fn encode_u128_into(value: u128, buf: &mut [u8]) -> (r: Result<usize, UVarintError>)
    ensures
        final(buf)@.len() == old(buf)@.len(),
        r is Ok <==> encode_spec(value as nat).len() <= old(buf)@.len(),
        match r {
            Ok(n) => {
                &&& n == encode_spec(value as nat).len()
                &&& final(buf)@.take(n as int) == encode_spec(value as nat)
                &&& final(buf)@.skip(n as int) == old(buf)@.skip(n as int)
            },
            Err(e) => e == UVarintError::BufferTooSmall,
        },
{
    encode_varint_into(value, buf)
}

} // verus!
