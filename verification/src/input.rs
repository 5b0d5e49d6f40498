use vstd::bytes::*;
use vstd::prelude::*;
use vstd::slice::*;

use crate::error::BitcoinError;
use crate::outpoint::lemma_outpoint_decode_encode;
use crate::outpoint::lemma_outpoint_decode_truncated;
use crate::outpoint::lemma_outpoint_encode_len;
use crate::outpoint::spec_outpoint_decode;
use crate::outpoint::spec_outpoint_encode;
use crate::outpoint::spec_outpoint_wf;
use crate::outpoint::OutPoint;
use crate::outpoint::OutPointV;
use crate::script::lemma_script_decode_encode;
use crate::script::lemma_script_decode_truncated;
use crate::script::spec_script_decode;
use crate::script::spec_script_encode;
use crate::script::spec_script_wf;
use crate::script::Script;

verus! {

/// One spent prior output: the outpoint it references, the unlocking
/// script, and the 4-byte sequence number.
#[derive(Debug, PartialEq, Eq, Clone)]
pub struct TransactionInput {
    pub previous_output: OutPoint,
    pub script_sig: Script,
    pub sequence: u32,
}

/// The mathematical model of a `TransactionInput`.
#[verifier::ext_equal]
pub struct InputV {
    pub previous_output: OutPointV,
    pub script_sig: Seq<u8>,
    pub sequence: u32,
}

impl View for TransactionInput {
    type V = InputV;

    open spec fn view(&self) -> InputV {
        InputV {
            previous_output: self.previous_output@,
            script_sig: self.script_sig@,
            sequence: self.sequence,
        }
    }
}

/// Well-formedness of the model: outpoint and script both well-formed.
pub open spec fn spec_input_wf(i: InputV) -> bool {
    spec_outpoint_wf(i.previous_output) && spec_script_wf(i.script_sig)
}

/// The wire encoding of an input: outpoint (36 bytes), script (length
/// prefix plus payload), then the sequence number in 4 little-endian bytes.
pub open spec fn spec_input_encode(i: InputV) -> Seq<u8>
    recommends
        spec_input_wf(i),
{
    spec_outpoint_encode(i.previous_output) + spec_script_encode(i.script_sig)
        + spec_u32_to_le_bytes(i.sequence)
}

/// What decoding an input from the front of `b` yields. The sub-decodes
/// run in order — outpoint, script, sequence — and the first to run out of
/// bytes makes the whole decode `None`.
pub open spec fn spec_input_decode(b: Seq<u8>) -> Option<(InputV, int)> {
    match spec_outpoint_decode(b) {
        None => None,
        Some((op, n1)) => match spec_script_decode(b.skip(n1)) {
            None => None,
            Some((sc, n2)) => if b.len() < n1 + n2 + 4 {
                None
            } else {
                Some(
                    (
                        InputV {
                            previous_output: op,
                            script_sig: sc,
                            sequence: spec_u32_from_le_bytes(b.subrange(n1 + n2, n1 + n2 + 4)),
                        },
                        n1 + n2 + 4,
                    ),
                )
            },
        },
    }
}

/// Decoding reads back exactly the encoded input and consumes exactly the
/// encoding, whatever bytes follow it.
#[verifier::rlimit(50)]
pub proof fn lemma_input_decode_encode(i: InputV, rest: Seq<u8>)
    requires
        spec_input_wf(i),
    ensures
        spec_input_decode(spec_input_encode(i) + rest) == Some(
            (i, spec_input_encode(i).len() as int),
        ),
{
    lemma_auto_spec_u32_to_from_le_bytes();
    let openc = spec_outpoint_encode(i.previous_output);
    let senc = spec_script_encode(i.script_sig);
    let sqenc = spec_u32_to_le_bytes(i.sequence);
    let b = spec_input_encode(i) + rest;
    lemma_outpoint_encode_len(i.previous_output);
    assert(b =~= openc + (senc + (sqenc + rest)));
    lemma_outpoint_decode_encode(i.previous_output, senc + (sqenc + rest));
    assert(b.skip(36) =~= senc + (sqenc + rest));
    lemma_script_decode_encode(i.script_sig, sqenc + rest);
    let n2 = senc.len() as int;
    assert(b.subrange(36 + n2, 36 + n2 + 4) =~= sqenc);
    assert(spec_input_decode(b)->Some_0.0 =~= i);
}

/// Decoding the whole encoding alone gives the input back: the input round
/// trip.
pub proof fn lemma_input_round_trip(i: InputV)
    requires
        spec_input_wf(i),
    ensures
        spec_input_decode(spec_input_encode(i)) == Some((i, spec_input_encode(i).len() as int)),
{
    assert(spec_input_encode(i) + Seq::<u8>::empty() =~= spec_input_encode(i));
    lemma_input_decode_encode(i, Seq::<u8>::empty());
}

/// Any strict prefix of an input encoding fails to decode: the cut lands
/// in the outpoint, the script, or the sequence field, and that sub-decode
/// reports the shortage.
#[verifier::rlimit(50)]
pub proof fn lemma_input_decode_truncated(i: InputV, n: int)
    requires
        spec_input_wf(i),
        0 <= n < spec_input_encode(i).len(),
    ensures
        spec_input_decode(spec_input_encode(i).subrange(0, n)) is None,
{
    lemma_auto_spec_u32_to_from_le_bytes();
    let openc = spec_outpoint_encode(i.previous_output);
    let senc = spec_script_encode(i.script_sig);
    let sqenc = spec_u32_to_le_bytes(i.sequence);
    lemma_outpoint_encode_len(i.previous_output);
    let t = spec_input_encode(i).subrange(0, n);
    if n < 36 {
        assert(t.len() < 36);
    } else if n < 36 + senc.len() {
        lemma_outpoint_decode_encode(i.previous_output, t.skip(36) + Seq::<u8>::empty());
        assert(t =~= openc + (t.skip(36) + Seq::<u8>::empty()));
        assert(t.skip(36) =~= senc.subrange(0, n - 36));
        lemma_script_decode_truncated(i.script_sig, n - 36);
    } else {
        let sqpre = sqenc.subrange(0, n - 36 - senc.len());
        assert(t =~= openc + (senc + sqpre));
        lemma_outpoint_decode_encode(i.previous_output, senc + sqpre);
        assert(t.skip(36) =~= senc + sqpre);
        lemma_script_decode_encode(i.script_sig, sqpre);
        assert(t.len() < 36 + senc.len() + 4);
    }
}

impl TransactionInput {
    /// Builds an input from its three fields.
    pub fn new(previous_output: OutPoint, script_sig: Script, sequence: u32) -> (r: Self)
        ensures
            r@.previous_output == previous_output@,
            r@.script_sig == script_sig@,
            r@.sequence == sequence,
    {
        Self { previous_output, script_sig, sequence }
    }

    /// Encodes the input as outpoint, script, then sequence number.
    pub fn to_bytes(&self) -> (r: Vec<u8>)
        ensures
            r@ == spec_input_encode(self@),
    {
        let mut bytes = self.previous_output.to_bytes();
        let mut script = self.script_sig.to_bytes();
        bytes.append(&mut script);
        let mut seq_bytes = u32_to_le_bytes(self.sequence);
        bytes.append(&mut seq_bytes);
        proof {
            assert(bytes@ =~= spec_input_encode(self@));
        }
        bytes
    }

    /// Decodes an input from the front of `bytes`: outpoint, then script,
    /// then sequence; the first sub-decode to fail aborts the whole decode
    /// with its error, and no partial input is ever returned.
    pub fn from_bytes(bytes: &[u8]) -> (r: Result<(Self, usize), BitcoinError>)
        ensures
            match r {
                Ok(p) => spec_input_decode(bytes@) == Some((p.0@, p.1 as int)) && 41 <= p.1
                    <= bytes@.len(),
                Err(e) => spec_input_decode(bytes@) is None && e == BitcoinError::InsufficientBytes,
            },
    {
        let (outpoint, offset1) = match OutPoint::from_bytes(bytes) {
            Ok(p) => p,
            Err(e) => {
                return Err(e);
            },
        };
        let remainder = slice_subrange(bytes, offset1, bytes.len());
        proof {
            assert(remainder@ =~= bytes@.skip(36));
        }
        let (script_sig, offset2) = match Script::from_bytes(remainder) {
            Ok(p) => p,
            Err(e) => {
                return Err(e);
            },
        };
        let total_offset = offset1 + offset2;
        if bytes.len() - total_offset < 4 {
            return Err(BitcoinError::InsufficientBytes);
        }
        let sequence = u32_from_le_bytes(slice_subrange(bytes, total_offset, total_offset + 4));
        let input = TransactionInput::new(outpoint, script_sig, sequence);
        proof {
            assert(spec_input_decode(bytes@)->Some_0.0 =~= input@);
        }
        Ok((input, total_offset + 4))
    }
}

} // verus!
