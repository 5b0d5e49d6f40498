use vstd::bytes::*;
use vstd::prelude::*;
use vstd::slice::*;

use crate::error::BitcoinError;

verus! {

/// A CompactSize value: a single unsigned 64-bit integer with a
/// minimal-width, prefix-tagged wire encoding.
#[derive(Debug, PartialEq, Eq, Clone, Structural)]
pub struct CompactSize {
    pub value: u64,
}

/// The wire encoding of a CompactSize value.
///
/// Values up to 0xFC take one byte; larger values take a tag byte
/// (0xFD/0xFE/0xFF) followed by 2/4/8 little-endian payload bytes.
pub open spec fn spec_compact_size_encode(v: u64) -> Seq<u8> {
    if v <= 0xFC {
        seq![v as u8]
    } else if v <= 0xFFFF {
        seq![0xFDu8] + spec_u16_to_le_bytes(v as u16)
    } else if v <= 0xFFFFFFFF {
        seq![0xFEu8] + spec_u32_to_le_bytes(v as u32)
    } else {
        seq![0xFFu8] + spec_u64_to_le_bytes(v)
    }
}

/// What decoding a CompactSize from the front of `b` yields: the value and
/// the number of bytes consumed, or `None` when the buffer is too short.
///
/// The tag byte alone selects the width; a non-minimal encoding (such as a
/// small value behind a 0xFD tag) is accepted as written.
pub open spec fn spec_compact_size_decode(b: Seq<u8>) -> Option<(u64, int)> {
    if b.len() == 0 {
        None
    } else if b[0] <= 0xFC {
        Some((b[0] as u64, 1int))
    } else if b[0] == 0xFD {
        if b.len() < 3 {
            None
        } else {
            Some((spec_u16_from_le_bytes(b.subrange(1, 3)) as u64, 3int))
        }
    } else if b[0] == 0xFE {
        if b.len() < 5 {
            None
        } else {
            Some((spec_u32_from_le_bytes(b.subrange(1, 5)) as u64, 5int))
        }
    } else {
        if b.len() < 9 {
            None
        } else {
            Some((spec_u64_from_le_bytes(b.subrange(1, 9)), 9int))
        }
    }
}

/// The encoding of `v` is 1, 3, 5 or 9 bytes long, by the branch that `v`
/// falls in.
pub proof fn lemma_compact_size_encode_len(v: u64)
    ensures
        spec_compact_size_encode(v).len() == (if v <= 0xFC {
            1int
        } else if v <= 0xFFFF {
            3int
        } else if v <= 0xFFFFFFFF {
            5int
        } else {
            9int
        }),
{
    lemma_auto_spec_u16_to_from_le_bytes();
    lemma_auto_spec_u32_to_from_le_bytes();
    lemma_auto_spec_u64_to_from_le_bytes();
}

/// Decoding reads back exactly the encoded value and consumes exactly the
/// encoding, whatever bytes follow it.
pub proof fn lemma_compact_size_decode_encode(v: u64, rest: Seq<u8>)
    ensures
        spec_compact_size_decode(spec_compact_size_encode(v) + rest) == Some(
            (v, spec_compact_size_encode(v).len() as int),
        ),
{
    lemma_auto_spec_u16_to_from_le_bytes();
    lemma_auto_spec_u32_to_from_le_bytes();
    lemma_auto_spec_u64_to_from_le_bytes();
    let enc = spec_compact_size_encode(v);
    let b = enc + rest;
    if v <= 0xFC {
        assert(b[0] == v as u8);
    } else if v <= 0xFFFF {
        assert(b[0] == 0xFDu8);
        assert(b.subrange(1, 3) =~= spec_u16_to_le_bytes(v as u16));
        assert(spec_u16_from_le_bytes(spec_u16_to_le_bytes(v as u16)) == v as u16);
    } else if v <= 0xFFFFFFFF {
        assert(b[0] == 0xFEu8);
        assert(b.subrange(1, 5) =~= spec_u32_to_le_bytes(v as u32));
        assert(spec_u32_from_le_bytes(spec_u32_to_le_bytes(v as u32)) == v as u32);
    } else {
        assert(b[0] == 0xFFu8);
        assert(b.subrange(1, 9) =~= spec_u64_to_le_bytes(v));
    }
}

/// Decoding the whole encoding alone gives the value back: the CompactSize
/// round trip.
pub proof fn lemma_compact_size_round_trip(v: u64)
    ensures
        spec_compact_size_decode(spec_compact_size_encode(v)) == Some(
            (v, spec_compact_size_encode(v).len() as int),
        ),
{
    assert(spec_compact_size_encode(v) + Seq::<u8>::empty() =~= spec_compact_size_encode(v));
    lemma_compact_size_decode_encode(v, Seq::<u8>::empty());
}

/// Any strict prefix of an encoding fails to decode: truncation is always
/// detected, never misread.
pub proof fn lemma_compact_size_decode_truncated(v: u64, n: int)
    requires
        0 <= n < spec_compact_size_encode(v).len(),
    ensures
        spec_compact_size_decode(spec_compact_size_encode(v).subrange(0, n)) is None,
{
    lemma_compact_size_encode_len(v);
    let enc = spec_compact_size_encode(v);
    let t = enc.subrange(0, n);
    if n > 0 {
        assert(t[0] == enc[0]);
        if v <= 0xFC {
        } else if v <= 0xFFFF {
            assert(enc[0] == 0xFDu8);
        } else if v <= 0xFFFFFFFF {
            assert(enc[0] == 0xFEu8);
        } else {
            assert(enc[0] == 0xFFu8);
        }
    }
}

impl CompactSize {
    /// Wraps a value; no invariant beyond the 64-bit range.
    pub fn new(value: u64) -> (r: Self)
        ensures
            r.value == value,
    {
        CompactSize { value }
    }

    /// Encodes the value in its minimal prefix-tagged form.
    pub fn to_bytes(&self) -> (r: Vec<u8>)
        ensures
            r@ == spec_compact_size_encode(self.value),
    {
        if self.value <= 0xFC {
            let mut bytes: Vec<u8> = Vec::new();
            bytes.push(self.value as u8);
            proof {
                assert(bytes@ =~= spec_compact_size_encode(self.value));
            }
            bytes
        } else if self.value <= 0xFFFF {
            let mut bytes: Vec<u8> = Vec::new();
            bytes.push(0xFD);
            let mut tail = u16_to_le_bytes(self.value as u16);
            bytes.append(&mut tail);
            proof {
                assert(bytes@ =~= spec_compact_size_encode(self.value));
            }
            bytes
        } else if self.value <= 0xFFFFFFFF {
            let mut bytes: Vec<u8> = Vec::new();
            bytes.push(0xFE);
            let mut tail = u32_to_le_bytes(self.value as u32);
            bytes.append(&mut tail);
            proof {
                assert(bytes@ =~= spec_compact_size_encode(self.value));
            }
            bytes
        } else {
            let mut bytes: Vec<u8> = Vec::new();
            bytes.push(0xFF);
            let mut tail = u64_to_le_bytes(self.value);
            bytes.append(&mut tail);
            proof {
                assert(bytes@ =~= spec_compact_size_encode(self.value));
            }
            bytes
        }
    }

    /// Decodes a CompactSize from the front of `bytes`, reporting how many
    /// bytes were consumed; fails with `InsufficientBytes` exactly when the
    /// buffer is shorter than the tagged width requires.
    pub fn from_bytes(bytes: &[u8]) -> (r: Result<(Self, usize), BitcoinError>)
        ensures
            match r {
                Ok(p) => spec_compact_size_decode(bytes@) == Some((p.0.value, p.1 as int))
                    && 1 <= p.1 <= bytes@.len(),
                Err(e) => spec_compact_size_decode(bytes@) is None && e
                    == BitcoinError::InsufficientBytes,
            },
    {
        if bytes.len() == 0 {
            return Err(BitcoinError::InsufficientBytes);
        }
        let first = bytes[0];
        if first <= 0xFC {
            Ok((CompactSize::new(first as u64), 1))
        } else if first == 0xFD {
            if bytes.len() < 3 {
                return Err(BitcoinError::InsufficientBytes);
            }
            let value = u16_from_le_bytes(slice_subrange(bytes, 1, 3));
            Ok((CompactSize::new(value as u64), 3))
        } else if first == 0xFE {
            if bytes.len() < 5 {
                return Err(BitcoinError::InsufficientBytes);
            }
            let value = u32_from_le_bytes(slice_subrange(bytes, 1, 5));
            Ok((CompactSize::new(value as u64), 5))
        } else {
            if bytes.len() < 9 {
                return Err(BitcoinError::InsufficientBytes);
            }
            let value = u64_from_le_bytes(slice_subrange(bytes, 1, 9));
            Ok((CompactSize::new(value), 9))
        }
    }
}

} // verus!
