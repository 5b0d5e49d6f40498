use vstd::prelude::*;

use crate::error::BitcoinError;

verus! {

broadcast use vstd::array::group_array_axioms;

/// A transaction identifier: exactly 32 raw bytes, opaque and never
/// interpreted as a number. Its textual form is the lowercase hex encoding
/// of the bytes in stored order.
#[derive(Debug, PartialEq, Eq, Clone)]
pub struct Txid(pub [u8; 32]);

impl View for Txid {
    type V = Seq<u8>;

    open spec fn view(&self) -> Seq<u8> {
        self.0@
    }
}

/// The lowercase hex digit for a nibble (a value below 16).
pub open spec fn spec_hex_char_of_nibble(n: u8) -> char
    recommends
        n < 16,
{
    if n == 0 {
        '0'
    } else if n == 1 {
        '1'
    } else if n == 2 {
        '2'
    } else if n == 3 {
        '3'
    } else if n == 4 {
        '4'
    } else if n == 5 {
        '5'
    } else if n == 6 {
        '6'
    } else if n == 7 {
        '7'
    } else if n == 8 {
        '8'
    } else if n == 9 {
        '9'
    } else if n == 10 {
        'a'
    } else if n == 11 {
        'b'
    } else if n == 12 {
        'c'
    } else if n == 13 {
        'd'
    } else if n == 14 {
        'e'
    } else {
        'f'
    }
}

/// The nibble a hex digit denotes, upper or lower case, or `None` for any
/// other character.
pub open spec fn spec_nibble_of_hex_char(c: char) -> Option<u8> {
    if '0' <= c && c <= '9' {
        Some(((c as u32) - ('0' as u32)) as u8)
    } else if 'a' <= c && c <= 'f' {
        Some((((c as u32) - ('a' as u32)) + 10) as u8)
    } else if 'A' <= c && c <= 'F' {
        Some((((c as u32) - ('A' as u32)) + 10) as u8)
    } else {
        None
    }
}

/// Whether `c` is a hex digit (either case).
pub open spec fn spec_is_hex_char(c: char) -> bool {
    spec_nibble_of_hex_char(c) is Some
}

/// Whether `s` is a well-formed hex string: even length, hex digits only.
pub open spec fn spec_is_hex_str(s: Seq<char>) -> bool {
    s.len() % 2 == 0 && (forall|i: int| 0 <= i < s.len() ==> spec_is_hex_char(#[trigger] s[i]))
}

/// The lowercase hex text for a byte sequence: two digits per byte, in
/// stored order.
pub open spec fn spec_hex_encode(b: Seq<u8>) -> Seq<char>
    decreases b.len(),
{
    if b.len() == 0 {
        Seq::empty()
    } else {
        seq![
            spec_hex_char_of_nibble((b[0] / 16) as u8),
            spec_hex_char_of_nibble((b[0] % 16) as u8),
        ] + spec_hex_encode(b.drop_first())
    }
}

/// The bytes a hex string denotes, one byte per digit pair.
pub open spec fn spec_hex_decode(s: Seq<char>) -> Seq<u8>
    recommends
        spec_is_hex_str(s),
    decreases s.len(),
{
    if s.len() < 2 {
        Seq::empty()
    } else {
        seq![
            ((spec_nibble_of_hex_char(s[0])->Some_0 * 16) + spec_nibble_of_hex_char(
                s[1],
            )->Some_0) as u8,
        ] + spec_hex_decode(s.skip(2))
    }
}

/// Reading back the digit written for a nibble gives the nibble.
proof fn lemma_nibble_round_trip(n: u8)
    requires
        n < 16,
    ensures
        spec_nibble_of_hex_char(spec_hex_char_of_nibble(n)) == Some(n),
{
}

/// The hex text of `b` is twice as long as `b`.
pub proof fn lemma_hex_encode_len(b: Seq<u8>)
    ensures
        spec_hex_encode(b).len() == 2 * b.len(),
    decreases b.len(),
{
    if b.len() > 0 {
        lemma_hex_encode_len(b.drop_first());
    }
}

/// The hex text of any byte sequence is a well-formed hex string.
pub proof fn lemma_hex_encode_is_hex_str(b: Seq<u8>)
    ensures
        spec_is_hex_str(spec_hex_encode(b)),
    decreases b.len(),
{
    lemma_hex_encode_len(b);
    if b.len() > 0 {
        lemma_hex_encode_is_hex_str(b.drop_first());
        let s = spec_hex_encode(b);
        let hi = (b[0] / 16) as u8;
        let lo = (b[0] % 16) as u8;
        lemma_nibble_round_trip(hi);
        lemma_nibble_round_trip(lo);
        assert forall|i: int| 0 <= i < s.len() implies spec_is_hex_char(#[trigger] s[i]) by {
            if i >= 2 {
                assert(s[i] == spec_hex_encode(b.drop_first())[i - 2]);
            }
        }
    }
}

/// A well-formed hex string denotes half as many bytes as it has digits.
pub proof fn lemma_hex_decode_len(s: Seq<char>)
    ensures
        spec_hex_decode(s).len() == s.len() / 2,
    decreases s.len(),
{
    if s.len() >= 2 {
        lemma_hex_decode_len(s.skip(2));
    }
}

/// Decoding the hex text of a byte sequence gives the bytes back: the hex
/// round trip.
pub proof fn lemma_hex_decode_encode(b: Seq<u8>)
    ensures
        spec_hex_decode(spec_hex_encode(b)) == b,
    decreases b.len(),
{
    if b.len() > 0 {
        lemma_hex_decode_encode(b.drop_first());
        lemma_hex_encode_len(b.drop_first());
        let s = spec_hex_encode(b);
        let hi = (b[0] / 16) as u8;
        let lo = (b[0] % 16) as u8;
        lemma_nibble_round_trip(hi);
        lemma_nibble_round_trip(lo);
        assert(s.skip(2) =~= spec_hex_encode(b.drop_first()));
        assert(hi * 16 + lo == b[0]) by {
            vstd::arithmetic::div_mod::lemma_fundamental_div_mod(b[0] as int, 16);
        }
        assert(spec_hex_decode(s) =~= b);
    }
}

/// The identifier text round trip: 32 bytes give a 64-character
/// well-formed hex string that denotes exactly those bytes, so parsing the
/// text of an identifier gives the identifier back.
pub proof fn lemma_txid_text_round_trip(b: Seq<u8>)
    requires
        b.len() == 32,
    ensures
        spec_hex_encode(b).len() == 64,
        spec_is_hex_str(spec_hex_encode(b)),
        spec_hex_decode(spec_hex_encode(b)) == b,
{
    lemma_hex_encode_len(b);
    lemma_hex_encode_is_hex_str(b);
    lemma_hex_decode_encode(b);
}

/// Relies on `hex::encode`: lowercase hex, two digits per byte, in byte
/// order.
#[verifier::external_body]
fn hex_encode_bytes(b: &[u8]) -> (r: String)
    ensures
        r@ == spec_hex_encode(b@),
{
    hex::encode(b)
}

/// Relies on `hex::decode`: it succeeds exactly on even-length strings of
/// hex digits (either case) and then returns the bytes the digit pairs
/// denote, in order.
#[verifier::external_body]
fn hex_decode_text(s: &str) -> (r: Option<Vec<u8>>)
    ensures
        r is Some <==> spec_is_hex_str(s@),
        r matches Some(v) ==> v@ == spec_hex_decode(s@),
{
    hex::decode(s).ok()
}

impl Txid {
    /// The 64-character lowercase hex text of the 32 stored bytes.
    pub fn to_text(&self) -> (r: String)
        ensures
            r@ == spec_hex_encode(self@),
            r@.len() == 64,
    {
        proof {
            lemma_hex_encode_len(self@);
        }
        hex_encode_bytes(self.0.as_slice())
    }

    /// Parses a 64-character hex string back into an identifier; any text
    /// that is not well-formed hex for exactly 32 bytes is rejected as
    /// `InvalidFormat`.
    pub fn from_text(s: &str) -> (r: Result<Self, BitcoinError>)
        ensures
            match r {
                Ok(t) => spec_is_hex_str(s@) && s@.len() == 64 && t@ == spec_hex_decode(s@),
                Err(e) => (!spec_is_hex_str(s@) || s@.len() != 64) && e
                    == BitcoinError::InvalidFormat,
            },
    {
        match hex_decode_text(s) {
            None => Err(BitcoinError::InvalidFormat),
            Some(bytes) => {
                proof {
                    lemma_hex_decode_len(s@);
                }
                if bytes.len() != 32 {
                    return Err(BitcoinError::InvalidFormat);
                }
                let mut raw: [u8; 32] = [0; 32];
                let mut i: usize = 0;
                while i < 32
                    invariant
                        bytes@.len() == 32,
                        0 <= i <= 32,
                        forall|j: int| 0 <= j < i ==> raw@[j] == bytes@[j],
                    decreases 32 - i,
                {
                    raw[i] = bytes[i];
                    i += 1;
                }
                proof {
                    assert(raw@ =~= bytes@);
                }
                Ok(Txid(raw))
            },
        }
    }
}

} // verus!
