use loom::client::{decode_address, transfer_message};
use loom::data::{Kind, State};

#[test]
fn address_decodes_to_key() {
    let text = data_encoding::BASE32HEX_NOPAD.encode(&[1u8; 32]);
    assert_eq!(decode_address(text.as_bytes()), Some([1u8; 32]));
}

#[test]
fn bad_addresses() {
    assert_eq!(decode_address(b"!!!!"), None);
    let short = data_encoding::BASE32HEX_NOPAD.encode(&[1u8; 16]);
    assert_eq!(decode_address(short.as_bytes()), None);
    assert_eq!(decode_address(b""), None);
}

#[test]
fn transfer_message_fields() {
    let m = transfer_message([1u8; 32], [2u8; 32], 99);
    assert_eq!(m.kind, Kind::Transaction);
    assert_eq!(m.state, State::Unknown);
    assert_eq!(m.version, 0);
    let tx = m.get_tx();
    assert_eq!(tx.from, [1u8; 32]);
    assert_eq!(tx.to, [2u8; 32]);
    assert_eq!(tx.amount, 99);
    assert_eq!(tx.fee, 0);
    assert_eq!(tx.lvh, [0u8; 32]);
}

#[test]
fn signed_transfer_signs_with_the_sender_key() {
    let kp = loom::wallet::Wallet::keypair_from_seed(&[6u8; 32]);
    let mut w = loom::wallet::Wallet::new();
    w.add_key_pair(kp);
    let from: [u8; 32] = loom::wallet::words_to_bytes(&kp.1).try_into().unwrap();
    let (m, sig) = loom::client::signed_transfer(&w, from, [2u8; 32], 40).expect("signed");
    assert_eq!(m.get_tx().from, from);
    assert_eq!(m.get_tx().amount, 40);
    assert!(crypto::ed25519::verify(&m.to_bytes(), &from, &sig.data));
    assert!(loom::client::signed_transfer(&w, [9u8; 32], [2u8; 32], 40).is_none());
}
