//! The decisions of reading a varint from a byte stream, one byte at a time.
//!
//! The caller pulls bytes from its stream and feeds them in; the decoder says
//! when to stop, so that no byte past the varint is ever taken from the
//! stream, and a malformed varint takes exactly the most bytes its width
//! allows. An I/O failure or the end of the stream before that point is the
//! caller's to report, as `Incomplete`.
use crate::decode::{decode_u32, decode_u64, width_max_bytes};
use crate::error::UVarintError;
use crate::model::{
    continues, decode_spec, lemma_scan_len_skip, max_bytes, scan_len, stream_complete,
    supported_width,
};
use vstd::prelude::*;

verus! {

/// The bytes of one varint received so far from a stream, and the width of
/// the integer it is read into.
pub struct StreamDecoder {
    bytes: Vec<u8>,
    width: u32,
    max_len: usize,
}

impl StreamDecoder {
    /// The bytes fed so far.
    pub closed spec fn received(&self) -> Seq<u8> {
        self.bytes@
    }

    /// The width, in bits, of the integer being read.
    pub closed spec fn width(&self) -> nat {
        self.width as nat
    }

    /// The internal invariant: a supported width, and no byte fed after the
    /// varint was complete.
    pub closed spec fn wf(&self) -> bool {
        &&& supported_width(self.width as nat)
        &&& self.max_len as nat == max_bytes(self.width as nat)
        &&& self.bytes@.len() <= self.max_len
        &&& forall|j: int| 0 <= j < self.bytes@.len() - 1 ==> continues(#[trigger] self.bytes@[j])
    }

    /// Whether no more bytes belong to this varint: the last byte fed has a
    /// clear continuation flag, or the most bytes that the width allows have
    /// been fed.
    pub open spec fn complete(&self) -> bool {
        stream_complete(self.received(), self.width())
    }

    /// A decoder for an integer of `width` bits that has received nothing.
    pub fn new(width: u32) -> (r: Self)
        requires
            supported_width(width as nat),
        ensures
            r.wf(),
            r.width() == width as nat,
            r.received() == Seq::<u8>::empty(),
    {
        StreamDecoder { bytes: Vec::new(), width, max_len: width_max_bytes(width) }
    }

    /// Whether the varint is complete, so that no further byte is to be read.
    pub fn is_complete(&self) -> (r: bool)
        requires
            self.wf(),
        ensures
            r == self.complete(),
    {
        let n = self.bytes.len();
        proof {
            if n > 0 {
                let b = self.bytes@[n - 1];
                assert(b & 0x80 == 0 <==> !continues(b)) by (bit_vector);
            }
        }
        n > 0 && (self.bytes[n - 1] & 0x80 == 0 || n == self.max_len)
    }

    /// Takes the next byte from the stream; returns whether the varint is now
    /// complete.
    pub fn feed(&mut self, byte: u8) -> (done: bool)
        requires
            old(self).wf(),
            !old(self).complete(),
        ensures
            final(self).wf(),
            final(self).width() == old(self).width(),
            final(self).received() == old(self).received().push(byte),
            done == final(self).complete(),
    {
        self.bytes.push(byte);
        self.is_complete()
    }

    /// The value of the varint received, read as an unsigned 32-bit integer.
    ///
    /// Before the varint is complete this is `Incomplete`.
    pub fn value_u32(&self) -> (r: Result<u32, UVarintError>)
        requires
            self.wf(),
            self.width() == 32,
        ensures
            match r {
                Ok(v) => decode_spec(self.received(), 32) == Ok::<(nat, nat), UVarintError>(
                    (self.received().len(), v as nat),
                ),
                Err(e) => decode_spec(self.received(), 32) == Err::<(nat, nat), UVarintError>(e),
            },
    {
        proof {
            self.lemma_scan_whole();
        }
        match decode_u32(self.bytes.as_slice()) {
            Ok((_, v)) => Ok(v),
            Err(e) => Err(e),
        }
    }

    /// The value of the varint received, read as an unsigned 64-bit integer.
    ///
    /// Before the varint is complete this is `Incomplete`.
    pub fn value_u64(&self) -> (r: Result<u64, UVarintError>)
        requires
            self.wf(),
            self.width() == 64,
        ensures
            match r {
                Ok(v) => decode_spec(self.received(), 64) == Ok::<(nat, nat), UVarintError>(
                    (self.received().len(), v as nat),
                ),
                Err(e) => decode_spec(self.received(), 64) == Err::<(nat, nat), UVarintError>(e),
            },
    {
        proof {
            self.lemma_scan_whole();
        }
        match decode_u64(self.bytes.as_slice()) {
            Ok((_, v)) => Ok(v),
            Err(e) => Err(e),
        }
    }

    /// The decoder reads every byte received, and no more.
    proof fn lemma_scan_whole(&self)
        requires
            self.wf(),
        ensures
            scan_len(self.bytes@, max_bytes(self.width as nat)) == self.bytes@.len(),
    {
        let s = self.bytes@;
        let m = max_bytes(self.width as nat);
        if s.len() > 0 {
            let i = (s.len() - 1) as nat;
            lemma_scan_len_skip(s, m, i);
            let rest = s.skip(i as int);
            assert(rest.drop_first().len() == 0);
            assert(rest[0] == s[i as int]);
            assert(scan_len(rest.drop_first(), (m - i - 1) as nat) == 0);
            assert(scan_len(rest, (m - i) as nat) == 1);
        }
    }
}

} // verus!
