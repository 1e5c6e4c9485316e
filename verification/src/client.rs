//! The wallet client's side of a transfer: reading addresses and building the
//! transaction message.
use crate::codec::read_32;
use crate::data::{
    lemma_zero_key, message_bytes, tx_bytes, zero_key, Kind, Message, MessageData, Signature, State,
    Transaction,
};
use crate::wallet::{ed25519_signature_of, holds_key, words_bytes, Wallet};
use vstd::prelude::*;

verus! {

/// `data_encoding::BASE32HEX_NOPAD.decode`: the bytes that `s` spells in base32hex
/// without padding, or `None` where `s` is not such text.
pub uninterp spec fn base32hex_decode(s: Seq<u8>) -> Option<Seq<u8>>;

/// `data_encoding::BASE32HEX_NOPAD.decode`: its result is `base32hex_decode` of the
/// text.
#[verifier::external_body]
fn decode_base32hex(s: &[u8]) -> (r: Option<Vec<u8>>)
    ensures
        match r {
            Some(v) => base32hex_decode(s@) == Some(v@),
            None => base32hex_decode(s@) is None,
        },
{
    match data_encoding::BASE32HEX_NOPAD.decode(s) {
        Ok(v) => Some(v),
        Err(_) => None,
    }
}

/// The 32-byte key that an address spells in base32hex; `None` when the address is
/// not base32hex or does not spell 32 bytes.
pub fn decode_address(addr: &[u8]) -> (r: Option<[u8; 32]>)
    ensures
        match base32hex_decode(addr@) {
            Some(b) => if b.len() == 32 {
                r matches Some(k) && k@ == b
            } else {
                r is None
            },
            None => r is None,
        },
{
    match decode_base32hex(addr) {
        Some(v) => {
            if v.len() == 32 {
                let k = read_32(v.as_slice(), 0);
                proof {
                    assert(v@.subrange(0, 32) =~= v@);
                }
                Some(k)
            } else {
                None
            }
        },
        None => None,
    }
}

/// The transaction that moves `amount` from `from` to `to`: no fee, and zeros for the
/// ledger hash, its count and the signature field.
pub open spec fn transfer_tx(from: [u8; 32], to: [u8; 32], amount: u64) -> Transaction {
    Transaction {
        lvh: zero_key(),
        from,
        to,
        lvh_count: 0,
        amount,
        fee: 0,
        signature: zero_key(),
    }
}

/// A transfer message: version 0, kind `Transaction`, state `Unknown`, with the
/// payload holding `tx`.
pub open spec fn is_transfer_message(m: Message, tx: Transaction) -> bool {
    &&& m.version == 0
    &&& m.kind == Kind::Transaction
    &&& m.state == State::Unknown
    &&& m.unused == 0
    &&& m.data.bytes@ == tx_bytes(tx)
    &&& m.tx_spec() == tx
}

/// The message that moves `amount` from `from` to `to`, with no fee, no ledger hash
/// and no signature yet.
pub fn transfer_message(from: [u8; 32], to: [u8; 32], amount: u64) -> (m: Message)
    ensures
        is_transfer_message(m, transfer_tx(from, to, amount)),
{
    let mut tx = Transaction::default();
    tx.from = from;
    tx.to = to;
    tx.amount = amount;
    proof {
        lemma_zero_key();
        assert(tx.lvh =~= zero_key());
        assert(tx.signature =~= zero_key());
    }
    Message {
        version: 0,
        kind: Kind::Transaction,
        state: State::Unknown,
        unused: 0,
        data: MessageData::from_tx(tx),
    }
}

/// The transfer of `amount` from `from` to `to`, signed with the wallet's first key
/// pair whose public key is `from`: the message, and the ed25519 signature of its 160
/// bytes under that pair's secret. `None` when the wallet holds no such pair.
pub fn signed_transfer(w: &Wallet, from: [u8; 32], to: [u8; 32], amount: u64) -> (r: Option<(Message, Signature)>)
    ensures
        match r {
            Some((m, sig)) => is_transfer_message(m, transfer_tx(from, to, amount)) && exists|i: int|
                holds_key(w, from@, i) && (forall|j: int| 0 <= j < i ==> !holds_key(w, from@, j)) && sig.data@
                    == ed25519_signature_of(message_bytes(m), words_bytes(w.privkeys@[i]@)),
            None => forall|i: int| !holds_key(w, from@, i),
        },
{
    let kp = match w.find_keypair(&from) {
        Some(kp) => kp,
        None => return None,
    };
    let m = transfer_message(from, to, amount);
    let sig = Wallet::sign(kp, &m);
    Some((m, sig))
}

} // verus!
