use vstd::prelude::*;
use vstd::slice::*;

use crate::compact_size::lemma_compact_size_decode_encode;
use crate::compact_size::lemma_compact_size_decode_truncated;
use crate::compact_size::spec_compact_size_decode;
use crate::compact_size::spec_compact_size_encode;
use crate::compact_size::CompactSize;
use crate::error::BitcoinError;

verus! {

/// An opaque byte payload, length-prefixed on the wire by a CompactSize.
/// The bytes are data only; nothing here interprets them.
#[derive(Debug, PartialEq, Eq, Clone)]
pub struct Script {
    pub bytes: Vec<u8>,
}

impl View for Script {
    type V = Seq<u8>;

    open spec fn view(&self) -> Seq<u8> {
        self.bytes@
    }
}

/// Well-formedness of the model: the payload length fits the 64-bit length
/// prefix.
pub open spec fn spec_script_wf(s: Seq<u8>) -> bool {
    s.len() <= u64::MAX
}

/// The wire encoding of a script: its length as a CompactSize, then the
/// raw bytes.
pub open spec fn spec_script_encode(s: Seq<u8>) -> Seq<u8>
    recommends
        spec_script_wf(s),
{
    spec_compact_size_encode(s.len() as u64) + s
}

/// What decoding a script from the front of `b` yields: the payload and
/// the bytes consumed (prefix plus payload), or `None` when the length
/// prefix itself, or the payload it announces, does not fit in `b`.
pub open spec fn spec_script_decode(b: Seq<u8>) -> Option<(Seq<u8>, int)> {
    match spec_compact_size_decode(b) {
        None => None,
        Some((len, p)) => if b.len() < p + len {
            None
        } else {
            Some((b.subrange(p, p + len), p + len))
        },
    }
}

/// Decoding reads back exactly the encoded payload and consumes exactly
/// the encoding, whatever bytes follow it.
pub proof fn lemma_script_decode_encode(s: Seq<u8>, rest: Seq<u8>)
    requires
        spec_script_wf(s),
    ensures
        spec_script_decode(spec_script_encode(s) + rest) == Some(
            (s, spec_script_encode(s).len() as int),
        ),
{
    let n = s.len() as u64;
    let cse = spec_compact_size_encode(n);
    let b = spec_script_encode(s) + rest;
    assert(b =~= cse + (s + rest));
    lemma_compact_size_decode_encode(n, s + rest);
    assert(b.subrange(cse.len() as int, cse.len() + n) =~= s);
}

/// Decoding the whole encoding alone gives the payload back: the script
/// round trip.
pub proof fn lemma_script_round_trip(s: Seq<u8>)
    requires
        spec_script_wf(s),
    ensures
        spec_script_decode(spec_script_encode(s)) == Some((s, spec_script_encode(s).len() as int)),
{
    assert(spec_script_encode(s) + Seq::<u8>::empty() =~= spec_script_encode(s));
    lemma_script_decode_encode(s, Seq::<u8>::empty());
}

/// Any strict prefix of a script encoding fails to decode: either the
/// length prefix is cut short, or the announced payload is.
pub proof fn lemma_script_decode_truncated(s: Seq<u8>, n: int)
    requires
        spec_script_wf(s),
        0 <= n < spec_script_encode(s).len(),
    ensures
        spec_script_decode(spec_script_encode(s).subrange(0, n)) is None,
{
    let len = s.len() as u64;
    let cse = spec_compact_size_encode(len);
    let t = spec_script_encode(s).subrange(0, n);
    if n < cse.len() {
        assert(t =~= cse.subrange(0, n));
        lemma_compact_size_decode_truncated(len, n);
    } else {
        let pre = s.subrange(0, n - cse.len());
        assert(t =~= cse + pre);
        lemma_compact_size_decode_encode(len, pre);
        assert(t.len() < cse.len() + len);
    }
}

impl Script {
    /// Wraps raw payload bytes; any contents and length are allowed.
    pub fn new(bytes: Vec<u8>) -> (r: Self)
        ensures
            r@ == bytes@,
    {
        Script { bytes }
    }

    /// Encodes the payload behind its CompactSize length prefix.
    pub fn to_bytes(&self) -> (r: Vec<u8>)
        ensures
            r@ == spec_script_encode(self@),
    {
        let len = CompactSize::new(self.bytes.len() as u64);
        let mut result = len.to_bytes();
        result.extend_from_slice(self.bytes.as_slice());
        result
    }

    /// Decodes a script from the front of `bytes`: first the CompactSize
    /// length (propagating its failure), then that many payload bytes;
    /// fails with `InsufficientBytes` exactly when either does not fit.
    pub fn from_bytes(bytes: &[u8]) -> (r: Result<(Self, usize), BitcoinError>)
        ensures
            match r {
                Ok(p) => spec_script_decode(bytes@) == Some((p.0@, p.1 as int)) && 1 <= p.1
                    <= bytes@.len(),
                Err(e) => spec_script_decode(bytes@) is None && e
                    == BitcoinError::InsufficientBytes,
            },
    {
        let (len_prefix, offset) = match CompactSize::from_bytes(bytes) {
            Ok(p) => p,
            Err(e) => {
                return Err(e);
            },
        };
        if ((bytes.len() - offset) as u64) < len_prefix.value {
            return Err(BitcoinError::InsufficientBytes);
        }
        let len = len_prefix.value as usize;
        let script_bytes = slice_to_vec(slice_subrange(bytes, offset, offset + len));
        Ok((Script::new(script_bytes), offset + len))
    }
}

} // verus!
