//! The mathematical model of varints: what a byte sequence means, what the
//! encoder produces, and what the decoder returns.
use crate::error::UVarintError;
use vstd::arithmetic::power2::{
    lemma2_to64, lemma_pow2_adds, lemma_pow2_pos, lemma_pow2_strictly_increases, pow2,
};
use vstd::prelude::*;

verus! {

/// The continuation flag: the high bit of a byte.
pub open spec fn continues(b: u8) -> bool {
    b >= 128
}

/// The 7-bit group that a byte carries.
pub open spec fn group(b: u8) -> nat {
    (b % 128) as nat
}

/// `128` raised to `n`: the weight of the group at position `n`.
pub open spec fn radix_pow(n: nat) -> nat
    decreases n,
{
    if n == 0 {
        1
    } else {
        128 * radix_pow((n - 1) as nat)
    }
}

/// The number that the groups of `s` stand for, least significant group first
/// (the continuation flags are ignored).
pub open spec fn value_of(s: Seq<u8>) -> nat
    decreases s.len(),
{
    if s.len() == 0 {
        0
    } else {
        group(s[0]) + 128 * value_of(s.drop_first())
    }
}

/// The most bytes that a varint of a `w`-bit integer may take: `ceil(w / 7)`.
pub open spec fn max_bytes(w: nat) -> nat {
    (w + 6) / 7
}

/// The integer widths that this library supports.
pub open spec fn supported_width(w: nat) -> bool {
    w == 16 || w == 32 || w == 64 || w == 128
}

/// How many bytes of `s` the decoder looks at when it may use at most `m`:
/// up to and including the first byte whose continuation flag is clear.
pub open spec fn scan_len(s: Seq<u8>, m: nat) -> nat
    decreases m,
{
    if s.len() == 0 || m == 0 {
        0
    } else if !continues(s[0]) {
        1
    } else {
        1 + scan_len(s.drop_first(), (m - 1) as nat)
    }
}

/// The outcome of decoding a `w`-bit varint from the start of `s`: the number
/// of bytes consumed and the value, or the error.
///
/// The decoder stops at the first byte without the continuation flag, or after
/// `max_bytes(w)` bytes, or at the end of `s`. If the bytes seen so far stand
/// for a value of `w` bits or more, it fails with `Overflow`; else, if it
/// stopped on a final byte, it succeeds; else it fails with `Incomplete`.
pub open spec fn decode_spec(s: Seq<u8>, w: nat) -> Result<(nat, nat), UVarintError> {
    let k = scan_len(s, max_bytes(w));
    let v = value_of(s.take(k as int));
    if v >= pow2(w) {
        Err(UVarintError::Overflow)
    } else if k > 0 && !continues(s[k - 1]) {
        Ok((k, v))
    } else {
        Err(UVarintError::Incomplete)
    }
}

/// Whether a reader that has taken the bytes `s` from a stream, for a `w`-bit
/// integer, must stop: the last byte has a clear continuation flag, or the
/// most bytes that the width allows have been taken.
pub open spec fn stream_complete(s: Seq<u8>, w: nat) -> bool {
    s.len() > 0 && (!continues(s[s.len() - 1]) || s.len() == max_bytes(w))
}

/// The minimal varint encoding of `v`.
pub open spec fn encode_spec(v: nat) -> Seq<u8>
    decreases v,
{
    if v < 128 {
        seq![v as u8]
    } else {
        seq![(v % 128 + 128) as u8] + encode_spec(v / 128)
    }
}

/// Every byte of `s` but the last has its continuation flag set, and the last
/// has it clear.
pub open spec fn well_terminated(s: Seq<u8>) -> bool {
    &&& s.len() > 0
    &&& !continues(s[s.len() - 1])
    &&& forall|i: int| 0 <= i < s.len() - 1 ==> continues(#[trigger] s[i])
}

pub proof fn lemma_radix_pow_positive(n: nat)
    ensures
        radix_pow(n) >= 1,
    decreases n,
{
    if n > 0 {
        lemma_radix_pow_positive((n - 1) as nat);
    }
}

pub proof fn lemma_radix_pow_increases(a: nat, b: nat)
    requires
        a <= b,
    ensures
        radix_pow(a) <= radix_pow(b),
    decreases b,
{
    if a < b {
        lemma_radix_pow_increases(a, (b - 1) as nat);
        lemma_radix_pow_positive((b - 1) as nat);
    }
}

/// `128^n == 2^(7n)`.
pub proof fn lemma_radix_pow_is_pow2(n: nat)
    ensures
        radix_pow(n) == pow2(7 * n),
    decreases n,
{
    if n == 0 {
        lemma2_to64();
    } else {
        lemma_radix_pow_is_pow2((n - 1) as nat);
        lemma_pow2_adds(7 * (n - 1) as nat, 7);
        lemma2_to64();
        assert(7 * n == 7 * (n - 1) as nat + 7);
    }
}

/// Adding one more byte adds its group at the weight of its position.
pub proof fn lemma_value_of_take_step(s: Seq<u8>, i: nat)
    requires
        i < s.len(),
    ensures
        value_of(s.take(i as int + 1)) == value_of(s.take(i as int)) + group(s[i as int])
            * radix_pow(i),
    decreases i,
{
    let t = s.take(i as int + 1);
    if i == 0 {
        assert(t.drop_first() =~= Seq::<u8>::empty());
        assert(s.take(0) =~= Seq::<u8>::empty());
        assert(value_of(Seq::<u8>::empty()) == 0);
        assert(value_of(t) == group(s[0]));
        assert(value_of(s.take(0)) == 0);
        assert(radix_pow(0) == 1);
        assert(group(s[0]) * radix_pow(0) == group(s[0]));
    } else {
        let r = s.drop_first();
        lemma_value_of_take_step(r, (i - 1) as nat);
        assert(t.drop_first() =~= r.take(i as int));
        assert(s.take(i as int).drop_first() =~= r.take(i - 1));
        let a = value_of(r.take(i - 1));
        let g = group(r[i - 1]);
        let p = radix_pow((i - 1) as nat);
        assert(128 * (a + g * p) == 128 * a + g * (128 * p)) by (nonlinear_arith);
        assert(g == group(s[i as int]));
        assert(value_of(t) == group(s[0]) + 128 * value_of(r.take(i as int)));
        assert(value_of(s.take(i as int)) == group(s[0]) + 128 * a);
        assert(radix_pow(i) == 128 * p);
        assert(g * radix_pow(i) == g * (128 * p));
    }
}

/// The value of a prefix never exceeds the value of a longer prefix.
pub proof fn lemma_value_of_take_monotone(s: Seq<u8>, a: nat, b: nat)
    requires
        a <= b <= s.len(),
    ensures
        value_of(s.take(a as int)) <= value_of(s.take(b as int)),
    decreases b,
{
    if a < b {
        lemma_value_of_take_monotone(s, a, (b - 1) as nat);
        lemma_value_of_take_step(s, (b - 1) as nat);
    }
}

/// While every byte before `i` continues, the scan passes over them.
pub proof fn lemma_scan_len_skip(s: Seq<u8>, m: nat, i: nat)
    requires
        i <= s.len(),
        i <= m,
        forall|j: int| 0 <= j < i ==> continues(#[trigger] s[j]),
    ensures
        scan_len(s, m) == i + scan_len(s.skip(i as int), (m - i) as nat),
    decreases i,
{
    if i > 0 {
        let r = s.drop_first();
        assert forall|j: int| 0 <= j < i - 1 implies continues(#[trigger] r[j]) by {
            assert(r[j] == s[j + 1]);
        }
        lemma_scan_len_skip(r, (m - 1) as nat, (i - 1) as nat);
        assert(r.skip(i - 1) =~= s.skip(i as int));
    } else {
        assert(s.skip(0) =~= s);
    }
}

/// The scan never runs past the end of `s` nor past `m` bytes.
pub proof fn lemma_scan_len_bounds(s: Seq<u8>, m: nat)
    ensures
        scan_len(s, m) <= s.len(),
        scan_len(s, m) <= m,
    decreases m,
{
    if s.len() > 0 && m > 0 && continues(s[0]) {
        lemma_scan_len_bounds(s.drop_first(), (m - 1) as nat);
    }
}

/// The encoding of `v` ends on its only byte without the continuation flag,
/// and its groups stand for `v`.
pub proof fn lemma_encode_spec_shape(v: nat)
    ensures
        well_terminated(encode_spec(v)),
        value_of(encode_spec(v)) == v,
    decreases v,
{
    let e = encode_spec(v);
    if v < 128 {
        assert(e.drop_first() =~= Seq::<u8>::empty());
        assert(value_of(Seq::<u8>::empty()) == 0);
    } else {
        let r = encode_spec(v / 128);
        lemma_encode_spec_shape(v / 128);
        assert(e.drop_first() =~= r);
        assert forall|i: int| 0 <= i < e.len() - 1 implies continues(#[trigger] e[i]) by {
            if i > 0 {
                assert(e[i] == r[i - 1]);
            }
        }
        assert(e[e.len() - 1] == r[r.len() - 1]);
    }
}

/// The encoding of `v` has the fewest groups that can hold `v`: `v` is below
/// `128^len`, and, when there are two groups or more, not below `128^(len-1)`.
pub proof fn lemma_encode_spec_len(v: nat)
    ensures
        encode_spec(v).len() >= 1,
        v < radix_pow(encode_spec(v).len()),
        encode_spec(v).len() > 1 ==> radix_pow((encode_spec(v).len() - 1) as nat) <= v,
    decreases v,
{
    let n = encode_spec(v).len();
    if v < 128 {
        assert(radix_pow(1) == 128 * radix_pow(0));
    } else {
        lemma_encode_spec_len(v / 128);
        let m = encode_spec(v / 128).len();
        assert(n == m + 1);
        assert(radix_pow(n) == 128 * radix_pow(m));
        if m > 1 {
            assert(radix_pow(m) == 128 * radix_pow((m - 1) as nat));
            let p = radix_pow((m - 1) as nat);
            assert(p <= v / 128);
            assert(128 * p <= v) by (nonlinear_arith)
                requires p <= v / 128;
        } else {
            assert(radix_pow(1) == 128 * radix_pow(0));
        }
        let q = radix_pow(m);
        assert(v < 128 * q) by (nonlinear_arith)
            requires v / 128 < q;
    }
}

/// A varint of a value below `2^w` fits in `max_bytes(w)` bytes.
pub proof fn lemma_encode_spec_fits(v: nat, w: nat)
    requires
        supported_width(w),
        v < pow2(w),
    ensures
        encode_spec(v).len() <= max_bytes(w),
{
    let n = encode_spec(v).len();
    let m = max_bytes(w);
    lemma_encode_spec_len(v);
    lemma_radix_pow_is_pow2(m);
    if w < 7 * m {
        lemma_pow2_strictly_increases(w, 7 * m);
    }
    if n > m {
        lemma_radix_pow_increases(m, (n - 1) as nat);
    }
}

/// Scanning a well-terminated sequence, followed by anything, stops at its end
/// when it fits in `m` bytes.
pub proof fn lemma_scan_len_terminated(t: Seq<u8>, extra: Seq<u8>, m: nat)
    requires
        well_terminated(t),
        t.len() <= m,
    ensures
        scan_len(t + extra, m) == t.len(),
        (t + extra).take(t.len() as int) == t,
{
    let s = t + extra;
    let i = (t.len() - 1) as nat;
    assert forall|j: int| 0 <= j < i implies continues(#[trigger] s[j]) by {
        assert(s[j] == t[j]);
    }
    lemma_scan_len_skip(s, m, i);
    assert(s.skip(i as int)[0] == t[i as int]);
    assert(s.take(t.len() as int) =~= t);
}

/// The number of bits that `v` needs: zero for zero.
pub open spec fn bit_length(v: nat) -> nat
    decreases v,
{
    if v == 0 {
        0
    } else {
        1 + bit_length(v / 2)
    }
}

/// `v` is below `2^b` exactly when it needs at most `b` bits.
pub proof fn lemma_bit_length_bound(v: nat, b: nat)
    ensures
        v < pow2(b) <==> bit_length(v) <= b,
    decreases v,
{
    lemma2_to64();
    if v == 0 {
        lemma_pow2_pos(b);
    } else if b == 0 {
        assert(bit_length(v) == 1 + bit_length(v / 2));
    } else {
        lemma_bit_length_bound(v / 2, (b - 1) as nat);
        lemma_pow2_adds((b - 1) as nat, 1);
        assert(((b - 1) as nat + 1) == b);
        assert(bit_length(v) == 1 + bit_length(v / 2));
        assert(pow2(b) == pow2((b - 1) as nat) * 2);
    }
}

/// The encoding of `v` takes `max(1, ceil(bit_length(v) / 7))` bytes.
pub proof fn lemma_encode_spec_len_bits(v: nat)
    ensures
        encode_spec(v).len() == if bit_length(v) == 0 {
            1
        } else {
            (bit_length(v) + 6) / 7
        },
{
    let n = encode_spec(v).len();
    let bl = bit_length(v);
    lemma_encode_spec_len(v);
    lemma_radix_pow_is_pow2(n);
    lemma_bit_length_bound(v, 7 * n);
    if n > 1 {
        lemma_radix_pow_is_pow2((n - 1) as nat);
        lemma_bit_length_bound(v, 7 * (n - 1) as nat);
        assert(7 * (n - 1) < bl <= 7 * n);
    } else if v > 0 {
        assert(bit_length(v) == 1 + bit_length(v / 2));
    }
}

} // verus!
