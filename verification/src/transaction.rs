use vstd::bytes::*;
use vstd::prelude::*;
use vstd::slice::*;

use crate::compact_size::lemma_compact_size_decode_encode;
use crate::compact_size::lemma_compact_size_decode_truncated;
use crate::compact_size::spec_compact_size_decode;
use crate::compact_size::spec_compact_size_encode;
use crate::compact_size::CompactSize;
use crate::error::BitcoinError;
use crate::input::lemma_input_decode_encode;
use crate::input::lemma_input_decode_truncated;
use crate::input::spec_input_decode;
use crate::input::spec_input_encode;
use crate::input::spec_input_wf;
use crate::input::InputV;
use crate::input::TransactionInput;

verus! {

/// A transaction: a 4-byte version, an ordered sequence of inputs, and a
/// 4-byte lock-time. The input order is significant and preserved exactly
/// through encode and decode.
#[derive(Debug, PartialEq, Eq, Clone)]
pub struct BitcoinTransaction {
    pub version: u32,
    pub inputs: Vec<TransactionInput>,
    pub lock_time: u32,
}

/// The mathematical model of a `BitcoinTransaction`.
#[verifier::ext_equal]
pub struct TransactionV {
    pub version: u32,
    pub inputs: Seq<InputV>,
    pub lock_time: u32,
}

/// The models of a sequence of inputs, in order.
pub open spec fn spec_inputs_view(v: Seq<TransactionInput>) -> Seq<InputV> {
    v.map_values(|t: TransactionInput| t@)
}

impl View for BitcoinTransaction {
    type V = TransactionV;

    open spec fn view(&self) -> TransactionV {
        TransactionV {
            version: self.version,
            inputs: spec_inputs_view(self.inputs@),
            lock_time: self.lock_time,
        }
    }
}

/// Well-formedness of the model: every input is well-formed and the input
/// count fits the 64-bit count prefix.
pub open spec fn spec_transaction_wf(t: TransactionV) -> bool {
    t.inputs.len() <= u64::MAX && (forall|j: int|
        0 <= j < t.inputs.len() ==> spec_input_wf(#[trigger] t.inputs[j]))
}

/// The concatenation of the encodings of a sequence of inputs, in order.
pub open spec fn spec_inputs_encode(is: Seq<InputV>) -> Seq<u8>
    decreases is.len(),
{
    if is.len() == 0 {
        Seq::empty()
    } else {
        spec_input_encode(is[0]) + spec_inputs_encode(is.drop_first())
    }
}

/// What decoding exactly `count` inputs from the front of `b` yields: the
/// inputs and the total bytes consumed, or `None` as soon as one of them
/// runs out of bytes.
pub open spec fn spec_inputs_decode(b: Seq<u8>, count: nat) -> Option<(Seq<InputV>, int)>
    decreases count,
{
    if count == 0 {
        Some((Seq::empty(), 0int))
    } else {
        match spec_input_decode(b) {
            None => None,
            Some((i, n)) => match spec_inputs_decode(b.skip(n), (count - 1) as nat) {
                None => None,
                Some((rest, m)) => Some((seq![i] + rest, n + m)),
            },
        }
    }
}

/// The wire encoding of a transaction: version (4 bytes little-endian),
/// CompactSize input count, each input in order, then lock-time (4 bytes
/// little-endian).
pub open spec fn spec_transaction_encode(t: TransactionV) -> Seq<u8>
    recommends
        spec_transaction_wf(t),
{
    spec_u32_to_le_bytes(t.version) + spec_compact_size_encode(t.inputs.len() as u64)
        + spec_inputs_encode(t.inputs) + spec_u32_to_le_bytes(t.lock_time)
}

/// What decoding a transaction from the front of `b` yields. Trailing
/// bytes beyond the consumed count are not an error.
pub open spec fn spec_transaction_decode(b: Seq<u8>) -> Option<(TransactionV, int)> {
    if b.len() < 4 {
        None
    } else {
        match spec_compact_size_decode(b.skip(4)) {
            None => None,
            Some((count, n1)) => match spec_inputs_decode(b.skip(4 + n1), count as nat) {
                None => None,
                Some((ins, n2)) => if b.len() < 4 + n1 + n2 + 4 {
                    None
                } else {
                    Some(
                        (
                            TransactionV {
                                version: spec_u32_from_le_bytes(b.subrange(0, 4)),
                                inputs: ins,
                                lock_time: spec_u32_from_le_bytes(
                                    b.subrange(4 + n1 + n2, 4 + n1 + n2 + 4),
                                ),
                            },
                            4 + n1 + n2 + 4,
                        ),
                    )
                },
            },
        }
    }
}

/// Appending one input to a sequence appends its encoding to the
/// sequence's encoding.
pub proof fn lemma_inputs_encode_push(is: Seq<InputV>, x: InputV)
    ensures
        spec_inputs_encode(is.push(x)) == spec_inputs_encode(is) + spec_input_encode(x),
    decreases is.len(),
{
    if is.len() == 0 {
        assert(is.push(x)[0] == x);
        assert(is.push(x).drop_first() =~= Seq::<InputV>::empty());
        assert(spec_inputs_encode(Seq::<InputV>::empty()) == Seq::<u8>::empty());
        assert(spec_inputs_encode(is.push(x)) == spec_input_encode(x) + Seq::<u8>::empty());
        assert(is =~= Seq::<InputV>::empty());
        assert(spec_inputs_encode(is.push(x)) =~= spec_inputs_encode(is) + spec_input_encode(x));
    } else {
        assert(is.push(x).drop_first() =~= is.drop_first().push(x));
        lemma_inputs_encode_push(is.drop_first(), x);
        assert(is.push(x)[0] == is[0]);
        assert(spec_input_encode(is[0]) + (spec_inputs_encode(is.drop_first()) + spec_input_encode(
            x,
        )) =~= spec_inputs_encode(is) + spec_input_encode(x));
    }
}

/// Decoding as many inputs as were encoded reads back exactly the encoded
/// sequence and consumes exactly its encoding, whatever bytes follow it.
#[verifier::rlimit(50)]
pub proof fn lemma_inputs_decode_encode(is: Seq<InputV>, rest: Seq<u8>)
    requires
        forall|j: int| 0 <= j < is.len() ==> spec_input_wf(#[trigger] is[j]),
    ensures
        spec_inputs_decode(spec_inputs_encode(is) + rest, is.len()) == Some(
            (is, spec_inputs_encode(is).len() as int),
        ),
    decreases is.len(),
{
    if is.len() == 0 {
        assert(spec_inputs_encode(is) =~= Seq::<u8>::empty());
        assert(is =~= Seq::<InputV>::empty());
    } else {
        let head = is[0];
        let tail = is.drop_first();
        let henc = spec_input_encode(head);
        let tenc = spec_inputs_encode(tail);
        let b = spec_inputs_encode(is) + rest;
        assert(b =~= henc + (tenc + rest));
        lemma_input_decode_encode(head, tenc + rest);
        assert(b.skip(henc.len() as int) =~= tenc + rest);
        lemma_inputs_decode_encode(tail, rest);
        assert(seq![head] + tail =~= is);
    }
}

/// Any strict prefix of the encoding of `count` inputs fails to decode
/// `count` inputs.
#[verifier::rlimit(50)]
pub proof fn lemma_inputs_decode_truncated(is: Seq<InputV>, n: int)
    requires
        forall|j: int| 0 <= j < is.len() ==> spec_input_wf(#[trigger] is[j]),
        0 <= n < spec_inputs_encode(is).len(),
    ensures
        spec_inputs_decode(spec_inputs_encode(is).subrange(0, n), is.len()) is None,
    decreases is.len(),
{
    let head = is[0];
    let tail = is.drop_first();
    let henc = spec_input_encode(head);
    let tenc = spec_inputs_encode(tail);
    let t = spec_inputs_encode(is).subrange(0, n);
    if n < henc.len() {
        assert(t =~= henc.subrange(0, n));
        lemma_input_decode_truncated(head, n);
    } else {
        let tpre = tenc.subrange(0, n - henc.len());
        assert(t =~= henc + tpre);
        lemma_input_decode_encode(head, tpre);
        assert(t.skip(henc.len() as int) =~= tpre);
        lemma_inputs_decode_truncated(tail, n - henc.len());
    }
}

/// Decoding reads back exactly the encoded transaction and consumes
/// exactly the encoding, whatever bytes follow it.
#[verifier::rlimit(50)]
pub proof fn lemma_transaction_decode_encode(t: TransactionV, rest: Seq<u8>)
    requires
        spec_transaction_wf(t),
    ensures
        spec_transaction_decode(spec_transaction_encode(t) + rest) == Some(
            (t, spec_transaction_encode(t).len() as int),
        ),
{
    lemma_auto_spec_u32_to_from_le_bytes();
    let count = t.inputs.len() as u64;
    let venc = spec_u32_to_le_bytes(t.version);
    let cenc = spec_compact_size_encode(count);
    let ienc = spec_inputs_encode(t.inputs);
    let lenc = spec_u32_to_le_bytes(t.lock_time);
    let b = spec_transaction_encode(t) + rest;
    assert(b.subrange(0, 4) =~= venc);
    assert(b.skip(4) =~= cenc + (ienc + (lenc + rest)));
    lemma_compact_size_decode_encode(count, ienc + (lenc + rest));
    let n1 = cenc.len() as int;
    assert(b.skip(4 + n1) =~= ienc + (lenc + rest));
    lemma_inputs_decode_encode(t.inputs, lenc + rest);
    let n2 = ienc.len() as int;
    assert(b.subrange(4 + n1 + n2, 4 + n1 + n2 + 4) =~= lenc);
    assert(spec_transaction_decode(b)->Some_0.0 =~= t);
}

/// Decoding the whole encoding alone gives the transaction back: the
/// transaction round trip.
pub proof fn lemma_transaction_round_trip(t: TransactionV)
    requires
        spec_transaction_wf(t),
    ensures
        spec_transaction_decode(spec_transaction_encode(t)) == Some(
            (t, spec_transaction_encode(t).len() as int),
        ),
{
    assert(spec_transaction_encode(t) + Seq::<u8>::empty() =~= spec_transaction_encode(t));
    lemma_transaction_decode_encode(t, Seq::<u8>::empty());
}

/// Any strict prefix of a transaction encoding fails to decode: the cut
/// lands in the version, the count, an input, or the lock-time, and that
/// step reports the shortage.
#[verifier::rlimit(50)]
pub proof fn lemma_transaction_decode_truncated(t: TransactionV, n: int)
    requires
        spec_transaction_wf(t),
        0 <= n < spec_transaction_encode(t).len(),
    ensures
        spec_transaction_decode(spec_transaction_encode(t).subrange(0, n)) is None,
{
    lemma_auto_spec_u32_to_from_le_bytes();
    let count = t.inputs.len() as u64;
    let venc = spec_u32_to_le_bytes(t.version);
    let cenc = spec_compact_size_encode(count);
    let ienc = spec_inputs_encode(t.inputs);
    let lenc = spec_u32_to_le_bytes(t.lock_time);
    let tr = spec_transaction_encode(t).subrange(0, n);
    if n < 4 {
        assert(tr.len() < 4);
    } else if n < 4 + cenc.len() {
        assert(tr.skip(4) =~= cenc.subrange(0, n - 4));
        lemma_compact_size_decode_truncated(count, n - 4);
    } else if n < 4 + cenc.len() + ienc.len() {
        let n1 = cenc.len() as int;
        let ipre = ienc.subrange(0, n - 4 - n1);
        assert(tr.skip(4) =~= cenc + ipre);
        lemma_compact_size_decode_encode(count, ipre);
        assert(tr.skip(4 + n1) =~= ipre);
        lemma_inputs_decode_truncated(t.inputs, n - 4 - n1);
    } else {
        let n1 = cenc.len() as int;
        let n2 = ienc.len() as int;
        let lpre = lenc.subrange(0, n - 4 - n1 - n2);
        assert(tr.skip(4) =~= cenc + (ienc + lpre));
        lemma_compact_size_decode_encode(count, ienc + lpre);
        assert(tr.skip(4 + n1) =~= ienc + lpre);
        lemma_inputs_decode_encode(t.inputs, lpre);
        assert(tr.len() < 4 + n1 + n2 + 4);
    }
}

/// A transaction without inputs encodes to exactly nine bytes: the
/// version, a single zero count byte, and the lock-time.
pub proof fn lemma_transaction_encode_no_inputs(t: TransactionV)
    requires
        t.inputs.len() == 0,
    ensures
        spec_transaction_encode(t) == spec_u32_to_le_bytes(t.version) + seq![0u8]
            + spec_u32_to_le_bytes(t.lock_time),
        spec_transaction_encode(t).len() == 9,
{
    lemma_auto_spec_u32_to_from_le_bytes();
    assert(spec_compact_size_encode(0) =~= seq![0u8]);
    assert(spec_transaction_encode(t) =~= spec_u32_to_le_bytes(t.version) + seq![0u8]
        + spec_u32_to_le_bytes(t.lock_time));
}

impl BitcoinTransaction {
    /// Builds a transaction from its three fields.
    pub fn new(version: u32, inputs: Vec<TransactionInput>, lock_time: u32) -> (r: Self)
        ensures
            r@.version == version,
            r@.inputs == spec_inputs_view(inputs@),
            r@.lock_time == lock_time,
    {
        Self { version, inputs, lock_time }
    }

    /// Encodes the transaction: version, input count, each input in order,
    /// lock-time.
    pub fn to_bytes(&self) -> (r: Vec<u8>)
        ensures
            r@ == spec_transaction_encode(self@),
    {
        let ghost ivs = spec_inputs_view(self.inputs@);
        let ghost pre = spec_u32_to_le_bytes(self.version) + spec_compact_size_encode(
            self.inputs@.len() as u64,
        );
        let mut bytes = u32_to_le_bytes(self.version);
        let count = CompactSize::new(self.inputs.len() as u64);
        let mut count_bytes = count.to_bytes();
        bytes.append(&mut count_bytes);
        proof {
            assert(ivs.take(0) =~= Seq::<InputV>::empty());
            assert(bytes@ =~= pre + spec_inputs_encode(ivs.take(0)));
        }
        let mut idx: usize = 0;
        while idx < self.inputs.len()
            invariant
                idx <= self.inputs@.len(),
                ivs == spec_inputs_view(self.inputs@),
                pre == spec_u32_to_le_bytes(self.version) + spec_compact_size_encode(
                    self.inputs@.len() as u64,
                ),
                bytes@ == pre + spec_inputs_encode(ivs.take(idx as int)),
            decreases self.inputs@.len() - idx,
        {
            let mut input_bytes = self.inputs[idx].to_bytes();
            bytes.append(&mut input_bytes);
            proof {
                assert(ivs[idx as int] == self.inputs@[idx as int]@);
                assert(ivs.take(idx as int + 1) =~= ivs.take(idx as int).push(ivs[idx as int]));
                lemma_inputs_encode_push(ivs.take(idx as int), ivs[idx as int]);
                assert(bytes@ =~= pre + spec_inputs_encode(ivs.take(idx as int + 1)));
            }
            idx += 1;
        }
        let mut lock_bytes = u32_to_le_bytes(self.lock_time);
        bytes.append(&mut lock_bytes);
        proof {
            assert(ivs.take(self.inputs@.len() as int) =~= ivs);
            assert(bytes@ =~= spec_transaction_encode(self@));
        }
        bytes
    }

    /// Decodes a transaction from the front of `bytes`: version, count,
    /// exactly `count` inputs, then lock-time. The first step to run out
    /// of bytes aborts the whole decode; trailing bytes are left
    /// unconsumed and unreported.
    pub fn from_bytes(bytes: &[u8]) -> (r: Result<(Self, usize), BitcoinError>)
        ensures
            match r {
                Ok(p) => spec_transaction_decode(bytes@) == Some((p.0@, p.1 as int)) && 9 <= p.1
                    <= bytes@.len(),
                Err(e) => spec_transaction_decode(bytes@) is None && e
                    == BitcoinError::InsufficientBytes,
            },
    {
        if bytes.len() < 4 {
            return Err(BitcoinError::InsufficientBytes);
        }
        let version = u32_from_le_bytes(slice_subrange(bytes, 0, 4));
        let after_version = slice_subrange(bytes, 4, bytes.len());
        proof {
            assert(after_version@ =~= bytes@.skip(4));
        }
        let (count_cs, offset1) = match CompactSize::from_bytes(after_version) {
            Ok(p) => p,
            Err(e) => {
                return Err(e);
            },
        };
        let count = count_cs.value;
        let start: usize = 4 + offset1;
        let mut inputs: Vec<TransactionInput> = Vec::new();
        let mut offset: usize = start;
        let mut i: u64 = 0;
        proof {
            assert(spec_inputs_view(inputs@) =~= Seq::<InputV>::empty());
            assert(Seq::<InputV>::empty() + spec_inputs_decode(
                bytes@.skip(start as int),
                count as nat,
            )->Some_0.0 =~= spec_inputs_decode(bytes@.skip(start as int), count as nat)->Some_0.0);
        }
        while i < count
            invariant
                4 <= start <= offset <= bytes@.len(),
                i <= count,
                spec_compact_size_decode(bytes@.skip(4)) == Some((count, start - 4)),
                ({
                    let full = spec_inputs_decode(bytes@.skip(start as int), count as nat);
                    let sofar = spec_inputs_view(inputs@);
                    match spec_inputs_decode(bytes@.skip(offset as int), (count - i) as nat) {
                        Some(p) => full == Some((sofar + p.0, (offset - start) + p.1)),
                        None => full is None,
                    }
                }),
            decreases count - i,
        {
            let remaining = slice_subrange(bytes, offset, bytes.len());
            proof {
                assert(remaining@ =~= bytes@.skip(offset as int));
            }
            let (input, used) = match TransactionInput::from_bytes(remaining) {
                Ok(p) => p,
                Err(e) => {
                    return Err(e);
                },
            };
            proof {
                let b = bytes@;
                let k = (count - i) as nat;
                assert(b.skip(offset as int).skip(used as int) =~= b.skip(offset + used));
                assert(spec_inputs_view(inputs@.push(input)) =~= spec_inputs_view(inputs@).push(
                    input@,
                ));
                let d = spec_inputs_decode(b.skip(offset + used), (k - 1) as nat);
                if d is Some {
                    let p = d->Some_0;
                    assert(spec_inputs_decode(b.skip(offset as int), k) == Some(
                        (seq![input@] + p.0, used + p.1),
                    ));
                    assert(spec_inputs_view(inputs@) + (seq![input@] + p.0) =~= spec_inputs_view(
                        inputs@,
                    ).push(input@) + p.0);
                }
            }
            inputs.push(input);
            offset = offset + used;
            i = i + 1;
        }
        if bytes.len() - offset < 4 {
            return Err(BitcoinError::InsufficientBytes);
        }
        let lock_time = u32_from_le_bytes(slice_subrange(bytes, offset, offset + 4));
        let tx = BitcoinTransaction::new(version, inputs, lock_time);
        proof {
            let sofar = spec_inputs_view(inputs@);
            assert(sofar + Seq::<InputV>::empty() =~= sofar);
            assert(spec_transaction_decode(bytes@)->Some_0.0 =~= tx@);
        }
        Ok((tx, offset + 4))
    }
}

} // verus!
