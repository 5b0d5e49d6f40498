use vstd::bytes::*;
use vstd::prelude::*;
use vstd::slice::*;

use crate::error::BitcoinError;
use crate::txid::Txid;

verus! {

broadcast use vstd::array::group_array_axioms;

/// A reference to one output of one prior transaction: the transaction
/// identifier plus the 4-byte output index.
#[derive(Debug, PartialEq, Eq, Clone)]
pub struct OutPoint {
    pub txid: Txid,
    pub vout: u32,
}

/// The mathematical model of an `OutPoint`: the raw identifier bytes and
/// the index.
#[verifier::ext_equal]
pub struct OutPointV {
    pub txid: Seq<u8>,
    pub vout: u32,
}

impl View for OutPoint {
    type V = OutPointV;

    open spec fn view(&self) -> OutPointV {
        OutPointV { txid: self.txid@, vout: self.vout }
    }
}

/// Well-formedness of the model: the identifier holds exactly 32 bytes.
pub open spec fn spec_outpoint_wf(op: OutPointV) -> bool {
    op.txid.len() == 32
}

/// The wire encoding of an outpoint: 32 identifier bytes, then the index
/// in 4 little-endian bytes — 36 bytes in all.
pub open spec fn spec_outpoint_encode(op: OutPointV) -> Seq<u8> {
    op.txid + spec_u32_to_le_bytes(op.vout)
}

/// What decoding an outpoint from the front of `b` yields: `None` exactly
/// when fewer than 36 bytes remain, else the fields and 36 consumed.
pub open spec fn spec_outpoint_decode(b: Seq<u8>) -> Option<(OutPointV, int)> {
    if b.len() < 36 {
        None
    } else {
        Some(
            (
                OutPointV {
                    txid: b.subrange(0, 32),
                    vout: spec_u32_from_le_bytes(b.subrange(32, 36)),
                },
                36int,
            ),
        )
    }
}

/// A well-formed outpoint encodes to exactly 36 bytes, whatever the index.
pub proof fn lemma_outpoint_encode_len(op: OutPointV)
    requires
        spec_outpoint_wf(op),
    ensures
        spec_outpoint_encode(op).len() == 36,
{
    lemma_auto_spec_u32_to_from_le_bytes();
}

/// Decoding reads back exactly the encoded outpoint and consumes exactly
/// its 36 bytes, whatever bytes follow it.
pub proof fn lemma_outpoint_decode_encode(op: OutPointV, rest: Seq<u8>)
    requires
        spec_outpoint_wf(op),
    ensures
        spec_outpoint_decode(spec_outpoint_encode(op) + rest) == Some((op, 36int)),
{
    lemma_auto_spec_u32_to_from_le_bytes();
    let b = spec_outpoint_encode(op) + rest;
    assert(b.subrange(0, 32) =~= op.txid);
    assert(b.subrange(32, 36) =~= spec_u32_to_le_bytes(op.vout));
    assert(spec_outpoint_decode(b)->Some_0.0 =~= op);
}

/// Decoding the whole encoding alone gives the outpoint back.
pub proof fn lemma_outpoint_round_trip(op: OutPointV)
    requires
        spec_outpoint_wf(op),
    ensures
        spec_outpoint_decode(spec_outpoint_encode(op)) == Some((op, 36int)),
{
    assert(spec_outpoint_encode(op) + Seq::<u8>::empty() =~= spec_outpoint_encode(op));
    lemma_outpoint_decode_encode(op, Seq::<u8>::empty());
}

/// Any strict prefix of an outpoint encoding fails to decode.
pub proof fn lemma_outpoint_decode_truncated(op: OutPointV, n: int)
    requires
        spec_outpoint_wf(op),
        0 <= n < spec_outpoint_encode(op).len(),
    ensures
        spec_outpoint_decode(spec_outpoint_encode(op).subrange(0, n)) is None,
{
    lemma_outpoint_encode_len(op);
}

impl OutPoint {
    /// Builds an outpoint from raw identifier bytes and an index.
    pub fn new(txid: [u8; 32], vout: u32) -> (r: Self)
        ensures
            r@.txid == txid@,
            r@.vout == vout,
    {
        Self { txid: Txid(txid), vout }
    }

    /// Encodes the outpoint as its fixed 36-byte form.
    pub fn to_bytes(&self) -> (r: Vec<u8>)
        ensures
            r@ == spec_outpoint_encode(self@),
            r@.len() == 36,
    {
        let mut bytes: Vec<u8> = Vec::new();
        bytes.extend_from_slice(self.txid.0.as_slice());
        let mut idx = u32_to_le_bytes(self.vout);
        bytes.append(&mut idx);
        proof {
            lemma_outpoint_encode_len(self@);
        }
        bytes
    }

    /// Decodes an outpoint from the front of `bytes`; always consumes
    /// exactly 36 bytes on success, and fails with `InsufficientBytes`
    /// exactly when fewer than 36 remain.
    pub fn from_bytes(bytes: &[u8]) -> (r: Result<(Self, usize), BitcoinError>)
        ensures
            match r {
                Ok(p) => spec_outpoint_decode(bytes@) == Some((p.0@, p.1 as int)) && p.1 == 36,
                Err(e) => spec_outpoint_decode(bytes@) is None && e
                    == BitcoinError::InsufficientBytes,
            },
    {
        if bytes.len() < 36 {
            return Err(BitcoinError::InsufficientBytes);
        }
        let mut raw: [u8; 32] = [0; 32];
        let mut i: usize = 0;
        while i < 32
            invariant
                bytes@.len() >= 36,
                0 <= i <= 32,
                forall|j: int| 0 <= j < i ==> raw@[j] == bytes@[j],
            decreases 32 - i,
        {
            raw[i] = bytes[i];
            i += 1;
        }
        let vout = u32_from_le_bytes(slice_subrange(bytes, 32, 36));
        proof {
            assert(raw@ =~= bytes@.subrange(0, 32));
            assert(spec_outpoint_decode(bytes@)->Some_0.0 =~= (OutPoint {
                txid: Txid(raw),
                vout,
            })@);
        }
        Ok((OutPoint { txid: Txid(raw), vout }, 36))
    }
}

} // verus!
