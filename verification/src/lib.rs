//! A verified binary codec for a simplified legacy transaction wire format.
//!
//! The format nests length-prefixed structures around a variable-width
//! integer encoding (CompactSize). Every decoder consumes bytes from the
//! front of a buffer, reports exactly how many it used, and fails with a
//! `BitcoinError` instead of panicking; every encoder's output is pinned
//! down byte for byte by a specification function, and round-trip and
//! truncation-safety laws are proved for each layer.

mod compact_size;
mod error;
mod input;
mod outpoint;
mod script;
mod transaction;
mod txid;

pub use compact_size::lemma_compact_size_decode_encode;
pub use compact_size::lemma_compact_size_decode_truncated;
pub use compact_size::lemma_compact_size_encode_len;
pub use compact_size::lemma_compact_size_round_trip;
pub use compact_size::spec_compact_size_decode;
pub use compact_size::spec_compact_size_encode;
pub use compact_size::CompactSize;
pub use error::BitcoinError;
pub use input::lemma_input_decode_encode;
pub use input::lemma_input_decode_truncated;
pub use input::lemma_input_round_trip;
pub use input::spec_input_decode;
pub use input::spec_input_encode;
pub use input::spec_input_wf;
pub use input::InputV;
pub use input::TransactionInput;
pub use outpoint::lemma_outpoint_decode_encode;
pub use outpoint::lemma_outpoint_decode_truncated;
pub use outpoint::lemma_outpoint_encode_len;
pub use outpoint::lemma_outpoint_round_trip;
pub use outpoint::spec_outpoint_decode;
pub use outpoint::spec_outpoint_encode;
pub use outpoint::spec_outpoint_wf;
pub use outpoint::OutPoint;
pub use outpoint::OutPointV;
pub use script::lemma_script_decode_encode;
pub use script::lemma_script_decode_truncated;
pub use script::lemma_script_round_trip;
pub use script::spec_script_decode;
pub use script::spec_script_encode;
pub use script::spec_script_wf;
pub use script::Script;
pub use transaction::lemma_inputs_decode_encode;
pub use transaction::lemma_inputs_decode_truncated;
pub use transaction::lemma_inputs_encode_push;
pub use transaction::lemma_transaction_decode_encode;
pub use transaction::lemma_transaction_decode_truncated;
pub use transaction::lemma_transaction_encode_no_inputs;
pub use transaction::lemma_transaction_round_trip;
pub use transaction::spec_inputs_decode;
pub use transaction::spec_inputs_encode;
pub use transaction::spec_inputs_view;
pub use transaction::spec_transaction_decode;
pub use transaction::spec_transaction_encode;
pub use transaction::spec_transaction_wf;
pub use transaction::BitcoinTransaction;
pub use transaction::TransactionV;
pub use txid::lemma_hex_decode_encode;
pub use txid::lemma_hex_decode_len;
pub use txid::lemma_hex_encode_is_hex_str;
pub use txid::lemma_hex_encode_len;
pub use txid::lemma_txid_text_round_trip;
pub use txid::spec_hex_char_of_nibble;
pub use txid::spec_hex_decode;
pub use txid::spec_hex_encode;
pub use txid::spec_is_hex_char;
pub use txid::spec_is_hex_str;
pub use txid::spec_nibble_of_hex_char;
pub use txid::Txid;
