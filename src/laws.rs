//! Properties that relate the encoder and the decoder, proved over the model
//! that the functions' contracts use.
use crate::error::UVarintError;
use crate::model::{
    bit_length, continues, decode_spec, encode_spec, lemma_encode_spec_fits,
    lemma_encode_spec_len, lemma_encode_spec_len_bits, lemma_encode_spec_shape, lemma_scan_len_skip,
    lemma_scan_len_terminated, lemma_value_of_take_monotone, max_bytes, radix_pow, scan_len,
    stream_complete, supported_width, value_of, well_terminated,
};
use vstd::arithmetic::power2::pow2;
use vstd::prelude::*;

verus! {

/// Decoding the encoding of any value that fits in `w` bits, followed by any
/// bytes at all, consumes exactly the encoding and gives the value back.
pub proof fn lemma_prefix_independence(v: nat, w: nat, extra: Seq<u8>)
    requires
        supported_width(w),
        v < pow2(w),
    ensures
        decode_spec(encode_spec(v) + extra, w) == Ok::<(nat, nat), UVarintError>(
            (encode_spec(v).len(), v),
        ),
{
    let t = encode_spec(v);
    lemma_encode_spec_shape(v);
    lemma_encode_spec_fits(v, w);
    lemma_scan_len_terminated(t, extra, max_bytes(w));
    assert((t + extra)[t.len() - 1] == t[t.len() - 1]);
}

/// Decoding the encoding of any value that fits in `w` bits consumes the
/// whole encoding and gives the value back.
pub proof fn lemma_round_trip(v: nat, w: nat)
    requires
        supported_width(w),
        v < pow2(w),
    ensures
        decode_spec(encode_spec(v), w) == Ok::<(nat, nat), UVarintError>(
            (encode_spec(v).len(), v),
        ),
{
    lemma_prefix_independence(v, w, Seq::<u8>::empty());
    assert(encode_spec(v) + Seq::<u8>::empty() =~= encode_spec(v));
}

/// The encoding of `v` is minimal: it takes the fewest 7-bit groups that hold
/// `v` (one at least), which is `max(1, ceil(bit_length(v) / 7))` bytes, and
/// every byte but the last has its continuation flag set.
pub proof fn lemma_minimality(v: nat)
    ensures
        encode_spec(v).len() == if bit_length(v) == 0 {
            1
        } else {
            (bit_length(v) + 6) / 7
        },
        encode_spec(v).len() >= 1,
        v < radix_pow(encode_spec(v).len()),
        encode_spec(v).len() > 1 ==> radix_pow((encode_spec(v).len() - 1) as nat) <= v,
        well_terminated(encode_spec(v)),
{
    lemma_encode_spec_len(v);
    lemma_encode_spec_len_bits(v);
    lemma_encode_spec_shape(v);
}

/// Whenever the bytes that the decoder reads stand for a value of `w` bits
/// or more, decoding fails with `Overflow`; this holds of the encoding of
/// every such value that fits in `max_bytes(w)` bytes. The encoding of the
/// largest `w`-bit value, `2^w - 1`, decodes to that value.
pub proof fn lemma_overflow_boundary(s: Seq<u8>, v: nat, w: nat)
    requires
        supported_width(w),
    ensures
        value_of(s.take(scan_len(s, max_bytes(w)) as int)) >= pow2(w) ==> decode_spec(s, w)
            == Err::<(nat, nat), UVarintError>(UVarintError::Overflow),
        pow2(w) <= v && encode_spec(v).len() <= max_bytes(w) ==> decode_spec(encode_spec(v), w)
            == Err::<(nat, nat), UVarintError>(UVarintError::Overflow),
        decode_spec(encode_spec((pow2(w) - 1) as nat), w) == Ok::<(nat, nat), UVarintError>(
            (encode_spec((pow2(w) - 1) as nat).len(), (pow2(w) - 1) as nat),
        ),
{
    let t = encode_spec(v);
    lemma_encode_spec_shape(v);
    if pow2(w) <= v && t.len() <= max_bytes(w) {
        lemma_scan_len_terminated(t, Seq::<u8>::empty(), max_bytes(w));
        assert(t + Seq::<u8>::empty() =~= t);
        assert(t.take(t.len() as int) =~= t);
    }
    vstd::arithmetic::power2::lemma_pow2_pos(w);
    lemma_round_trip((pow2(w) - 1) as nat, w);
}

/// Decoding a strict prefix of the encoding of a value that fits in `w` bits
/// (every byte of which has its continuation flag set) fails with
/// `Incomplete`.
pub proof fn lemma_truncation(v: nat, w: nat, n: nat)
    requires
        supported_width(w),
        v < pow2(w),
        n < encode_spec(v).len(),
    ensures
        decode_spec(encode_spec(v).take(n as int), w) == Err::<(nat, nat), UVarintError>(
            UVarintError::Incomplete,
        ),
{
    let t = encode_spec(v);
    let p = t.take(n as int);
    lemma_encode_spec_shape(v);
    lemma_encode_spec_fits(v, w);
    assert forall|j: int| 0 <= j < n implies continues(#[trigger] p[j]) by {
        assert(p[j] == t[j]);
    }
    lemma_scan_len_skip(p, max_bytes(w), n);
    assert(p.skip(n as int).len() == 0);
    assert(scan_len(p, max_bytes(w)) == n);
    assert(p.take(n as int) =~= t.take(n as int));
    lemma_value_of_take_monotone(t, n, t.len());
    assert(t.take(t.len() as int) =~= t);
}

/// A stream reader fed the encoding of a value that fits in `w` bits, one
/// byte at a time, must stop exactly after its last byte, never before.
pub proof fn lemma_stream_stops_at_end(v: nat, w: nat, k: nat)
    requires
        supported_width(w),
        v < pow2(w),
        1 <= k <= encode_spec(v).len(),
    ensures
        stream_complete(encode_spec(v).take(k as int), w) <==> k == encode_spec(v).len(),
{
    let t = encode_spec(v);
    lemma_encode_spec_shape(v);
    lemma_encode_spec_fits(v, w);
    assert(t.take(k as int)[k - 1] == t[k - 1]);
}

} // verus!
