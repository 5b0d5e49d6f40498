use bitcoin_codec::BitcoinError;
use bitcoin_codec::Txid;

#[test]
fn txid_to_text_is_lowercase_hex_in_stored_order() {
    let mut bytes = [0u8; 32];
    bytes[0] = 0x01;
    bytes[1] = 0xAB;
    bytes[31] = 0xFF;
    let text = Txid(bytes).to_text();
    assert_eq!(text.len(), 64);
    assert_eq!(&text[..4], "01ab");
    assert_eq!(&text[62..], "ff");
    assert_eq!(
        text,
        "01ab0000000000000000000000000000000000000000000000000000000000ff"
    );
}

#[test]
fn txid_text_round_trip() {
    let mut bytes = [0u8; 32];
    for (i, byte) in bytes.iter_mut().enumerate() {
        *byte = (i as u8).wrapping_mul(7).wrapping_add(13);
    }
    let original = Txid(bytes);
    let text = original.to_text();
    let parsed = Txid::from_text(&text).unwrap();
    assert_eq!(parsed, original);
}

#[test]
fn txid_from_text_accepts_uppercase() {
    let text = "01AB0000000000000000000000000000000000000000000000000000000000FF";
    let parsed = Txid::from_text(text).unwrap();
    assert_eq!(parsed.0[0], 0x01);
    assert_eq!(parsed.0[1], 0xAB);
    assert_eq!(parsed.0[31], 0xFF);
}

#[test]
fn txid_from_text_rejects_wrong_lengths() {
    let too_short = "0".repeat(63);
    let too_long = "0".repeat(65);
    let short_even = "0".repeat(62);
    let long_even = "0".repeat(66);
    assert_eq!(
        Txid::from_text(&too_short),
        Err(BitcoinError::InvalidFormat)
    );
    assert_eq!(Txid::from_text(&too_long), Err(BitcoinError::InvalidFormat));
    assert_eq!(
        Txid::from_text(&short_even),
        Err(BitcoinError::InvalidFormat)
    );
    assert_eq!(
        Txid::from_text(&long_even),
        Err(BitcoinError::InvalidFormat)
    );
    assert_eq!(Txid::from_text(""), Err(BitcoinError::InvalidFormat));
}

#[test]
fn txid_from_text_rejects_non_hex() {
    let mut text = "0".repeat(64);
    text.replace_range(10..11, "g");
    assert_eq!(Txid::from_text(&text), Err(BitcoinError::InvalidFormat));
    let non_ascii = "é".repeat(32);
    assert_eq!(
        Txid::from_text(&non_ascii),
        Err(BitcoinError::InvalidFormat)
    );
}

#[test]
fn txid_text_of_all_byte_values() {
    let mut low = [0u8; 32];
    for (i, byte) in low.iter_mut().enumerate() {
        *byte = i as u8;
    }
    let text = Txid(low).to_text();
    assert_eq!(
        text,
        "000102030405060708090a0b0c0d0e0f101112131415161718191a1b1c1d1e1f"
    );
}
