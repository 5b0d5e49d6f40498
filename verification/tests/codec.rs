use bitcoin_codec::BitcoinError;
use bitcoin_codec::BitcoinTransaction;
use bitcoin_codec::CompactSize;
use bitcoin_codec::OutPoint;
use bitcoin_codec::Script;
use bitcoin_codec::TransactionInput;

fn sample_txid(seed: u8) -> [u8; 32] {
    let mut id = [0u8; 32];
    for (i, byte) in id.iter_mut().enumerate() {
        *byte = seed.wrapping_add(i as u8);
    }
    id
}

fn sample_input(seed: u8, script_bytes: Vec<u8>, sequence: u32) -> TransactionInput {
    TransactionInput::new(
        OutPoint::new(sample_txid(seed), seed as u32),
        Script::new(script_bytes),
        sequence,
    )
}

#[test]
fn compact_size_boundary_encodings() {
    assert_eq!(CompactSize::new(0).to_bytes(), vec![0x00]);
    assert_eq!(CompactSize::new(252).to_bytes(), vec![0xFC]);
    assert_eq!(CompactSize::new(253).to_bytes(), vec![0xFD, 0xFD, 0x00]);
    assert_eq!(CompactSize::new(65535).to_bytes(), vec![0xFD, 0xFF, 0xFF]);
    assert_eq!(
        CompactSize::new(65536).to_bytes(),
        vec![0xFE, 0x00, 0x00, 0x01, 0x00]
    );
    assert_eq!(
        CompactSize::new(4294967295).to_bytes(),
        vec![0xFE, 0xFF, 0xFF, 0xFF, 0xFF]
    );
    assert_eq!(
        CompactSize::new(4294967296).to_bytes(),
        vec![0xFF, 0x00, 0x00, 0x00, 0x00, 0x01, 0x00, 0x00, 0x00]
    );
}

#[test]
fn compact_size_round_trips() {
    for value in [
        0u64,
        1,
        252,
        253,
        254,
        65535,
        65536,
        4294967295,
        4294967296,
        u64::MAX,
    ] {
        let encoded = CompactSize::new(value).to_bytes();
        let (decoded, consumed) = CompactSize::from_bytes(&encoded).unwrap();
        assert_eq!(decoded, CompactSize::new(value));
        assert_eq!(consumed, encoded.len());
    }
}

#[test]
fn compact_size_non_minimal_accepted() {
    let (decoded, consumed) = CompactSize::from_bytes(&[0xFD, 0x05, 0x00]).unwrap();
    assert_eq!(decoded.value, 5);
    assert_eq!(consumed, 3);
}

#[test]
fn compact_size_truncation_fails() {
    for value in [0u64, 252, 253, 65535, 65536, 4294967296, u64::MAX] {
        let encoded = CompactSize::new(value).to_bytes();
        for cut in 0..encoded.len() {
            assert_eq!(
                CompactSize::from_bytes(&encoded[..cut]),
                Err(BitcoinError::InsufficientBytes),
                "value {value} cut at {cut}"
            );
        }
    }
}

#[test]
fn compact_size_ignores_trailing_bytes() {
    let mut encoded = CompactSize::new(300).to_bytes();
    encoded.extend_from_slice(&[0xAA, 0xBB]);
    let (decoded, consumed) = CompactSize::from_bytes(&encoded).unwrap();
    assert_eq!(decoded.value, 300);
    assert_eq!(consumed, 3);
}

#[test]
fn outpoint_always_consumes_36_bytes() {
    for vout in [0u32, 1, 0xFFFF, u32::MAX] {
        let outpoint = OutPoint::new(sample_txid(7), vout);
        let encoded = outpoint.to_bytes();
        assert_eq!(encoded.len(), 36);
        let (decoded, consumed) = OutPoint::from_bytes(&encoded).unwrap();
        assert_eq!(consumed, 36);
        assert_eq!(decoded, outpoint);
    }
}

#[test]
fn outpoint_truncation_fails() {
    let encoded = OutPoint::new(sample_txid(9), 123).to_bytes();
    for cut in 0..36 {
        assert_eq!(
            OutPoint::from_bytes(&encoded[..cut]),
            Err(BitcoinError::InsufficientBytes)
        );
    }
}

#[test]
fn script_round_trip() {
    for payload in [vec![], vec![0xAB], vec![0u8; 300]] {
        let script = Script::new(payload.clone());
        let encoded = script.to_bytes();
        let (decoded, consumed) = Script::from_bytes(&encoded).unwrap();
        assert_eq!(decoded.bytes, payload);
        assert_eq!(consumed, encoded.len());
    }
}

#[test]
fn script_length_prefix_layout() {
    let script = Script::new(vec![1, 2, 3]);
    assert_eq!(script.to_bytes(), vec![0x03, 1, 2, 3]);
    let long = Script::new(vec![0x55; 253]);
    let encoded = long.to_bytes();
    assert_eq!(&encoded[..3], &[0xFD, 0xFD, 0x00]);
    assert_eq!(encoded.len(), 3 + 253);
}

#[test]
fn script_non_minimal_prefix_accepted() {
    let buffer = [0xFD, 0x05, 0x00, 10, 20, 30, 40, 50, 99];
    let (decoded, consumed) = Script::from_bytes(&buffer).unwrap();
    assert_eq!(decoded.bytes, vec![10, 20, 30, 40, 50]);
    assert_eq!(consumed, 8);
}

#[test]
fn script_truncation_fails() {
    let encoded = Script::new(vec![9u8; 20]).to_bytes();
    for cut in 0..encoded.len() {
        assert_eq!(
            Script::from_bytes(&encoded[..cut]),
            Err(BitcoinError::InsufficientBytes)
        );
    }
}

#[test]
fn input_round_trip() {
    let input = sample_input(3, vec![0xDE, 0xAD, 0xBE, 0xEF], 0xFFFFFFFE);
    let encoded = input.to_bytes();
    let (decoded, consumed) = TransactionInput::from_bytes(&encoded).unwrap();
    assert_eq!(decoded, input);
    assert_eq!(consumed, encoded.len());
}

#[test]
fn input_truncation_fails() {
    let encoded = sample_input(5, vec![1, 2, 3, 4, 5, 6, 7], 42).to_bytes();
    for cut in 0..encoded.len() {
        assert_eq!(
            TransactionInput::from_bytes(&encoded[..cut]),
            Err(BitcoinError::InsufficientBytes),
            "cut at {cut}"
        );
    }
}

#[test]
fn transaction_round_trip_preserves_input_order() {
    let tx = BitcoinTransaction::new(
        2,
        vec![
            sample_input(1, vec![0x51], 0),
            sample_input(2, vec![], 7),
            sample_input(3, vec![0x00; 77], u32::MAX),
        ],
        500_000,
    );
    let encoded = tx.to_bytes();
    let (decoded, consumed) = BitcoinTransaction::from_bytes(&encoded).unwrap();
    assert_eq!(decoded, tx);
    assert_eq!(consumed, encoded.len());
    assert_eq!(decoded.inputs[0].previous_output.vout, 1);
    assert_eq!(decoded.inputs[1].previous_output.vout, 2);
    assert_eq!(decoded.inputs[2].previous_output.vout, 3);
}

#[test]
fn transaction_with_zero_inputs_is_nine_bytes() {
    let tx = BitcoinTransaction::new(1, vec![], 0xAABBCCDD);
    let encoded = tx.to_bytes();
    assert_eq!(encoded.len(), 9);
    assert_eq!(
        encoded,
        vec![0x01, 0x00, 0x00, 0x00, 0x00, 0xDD, 0xCC, 0xBB, 0xAA]
    );
    let (decoded, consumed) = BitcoinTransaction::from_bytes(&encoded).unwrap();
    assert_eq!(consumed, 9);
    assert_eq!(decoded.version, 1);
    assert!(decoded.inputs.is_empty());
    assert_eq!(decoded.lock_time, 0xAABBCCDD);
}

#[test]
fn transaction_truncation_fails() {
    let tx = BitcoinTransaction::new(
        1,
        vec![sample_input(8, vec![0xAA, 0xBB], 11), sample_input(9, vec![], 22)],
        99,
    );
    let encoded = tx.to_bytes();
    for cut in 0..encoded.len() {
        assert_eq!(
            BitcoinTransaction::from_bytes(&encoded[..cut]),
            Err(BitcoinError::InsufficientBytes),
            "cut at {cut}"
        );
    }
}

#[test]
fn transaction_ignores_trailing_bytes() {
    let tx = BitcoinTransaction::new(3, vec![sample_input(4, vec![7, 8], 5)], 1000);
    let mut encoded = tx.to_bytes();
    let exact = encoded.len();
    encoded.extend_from_slice(&[0x01, 0x02, 0x03]);
    let (decoded, consumed) = BitcoinTransaction::from_bytes(&encoded).unwrap();
    assert_eq!(decoded, tx);
    assert_eq!(consumed, exact);
}

#[test]
fn empty_buffer_is_insufficient() {
    assert_eq!(
        CompactSize::from_bytes(&[]),
        Err(BitcoinError::InsufficientBytes)
    );
    assert_eq!(
        OutPoint::from_bytes(&[]),
        Err(BitcoinError::InsufficientBytes)
    );
    assert_eq!(Script::from_bytes(&[]), Err(BitcoinError::InsufficientBytes));
    assert_eq!(
        TransactionInput::from_bytes(&[]),
        Err(BitcoinError::InsufficientBytes)
    );
    assert_eq!(
        BitcoinTransaction::from_bytes(&[]),
        Err(BitcoinError::InsufficientBytes)
    );
}

#[test]
fn transaction_count_larger_than_inputs_is_insufficient() {
    // Version, count 2, but only one (empty-script) input and a lock-time.
    let tx = BitcoinTransaction::new(1, vec![sample_input(6, vec![], 0)], 0);
    let mut encoded = tx.to_bytes();
    encoded[4] = 2;
    assert_eq!(
        BitcoinTransaction::from_bytes(&encoded),
        Err(BitcoinError::InsufficientBytes)
    );
}
