use loom::data::{Message, MessageData, Transaction};
use loom::result::LoomError;
use loom::wallet::{words_to_bytes, EncryptedWallet, Wallet};

#[test]
fn new_wallets_are_empty() {
    let w = Wallet::new();
    assert!(w.pubkeys.is_empty() && w.privkeys.is_empty());
    let e = EncryptedWallet::new();
    assert!(e.pubkeys.is_empty() && e.privkeys.is_empty());
}

#[test]
fn add_key_pair_appends() {
    let mut w = Wallet::new();
    w.add_key_pair(([1u64; 8], [2u64; 4]));
    w.add_key_pair(([3u64; 8], [4u64; 4]));
    assert_eq!(w.privkeys, vec![[1u64; 8], [3u64; 8]]);
    assert_eq!(w.pubkeys, vec![[2u64; 4], [4u64; 4]]);
}

#[test]
fn keypair_from_seed_matches_ed25519() {
    let seed = [7u8; 64];
    let (sk, pk) = Wallet::keypair_from_seed(&seed);
    let (a, b) = crypto::ed25519::keypair(&seed);
    assert_eq!(words_to_bytes(&sk), a.to_vec());
    assert_eq!(words_to_bytes(&pk), b.to_vec());
    assert_eq!(sk[0], u64::from_le_bytes([a[0], a[1], a[2], a[3], a[4], a[5], a[6], a[7]]));
    // the same seed gives the same pair
    assert_eq!(Wallet::keypair_from_seed(&seed), (sk, pk));
}

#[test]
fn new_keypair_is_an_ed25519_pair() {
    let (sk, pk) = Wallet::new_keypair().expect("random");
    let sb = words_to_bytes(&sk);
    // the secret holds its public key in its second half
    assert_eq!(&sb[32..64], words_to_bytes(&pk).as_slice());
}

#[test]
fn sign_signs_message_bytes() {
    // with a 32-byte seed the pair is a proper ed25519 pair
    let kp = Wallet::keypair_from_seed(&[1u8; 32]);
    let mut tx = Transaction::default();
    tx.amount = 10;
    let mut m = Message::default();
    m.data = MessageData::from_tx(tx);
    let sig = Wallet::sign(kp, &m);
    let pk = words_to_bytes(&kp.1);
    assert!(crypto::ed25519::verify(&m.to_bytes(), &pk, &sig.data));
    let mut other = m;
    other.version = 1;
    assert!(!crypto::ed25519::verify(&other.to_bytes(), &pk, &sig.data));
    // whatever the seed, the signature is ed25519's under the secret bytes
    let kp64 = Wallet::keypair_from_seed(&[1u8; 64]);
    let sk64 = words_to_bytes(&kp64.0);
    assert_eq!(Wallet::sign(kp64, &m).data.to_vec(), crypto::ed25519::signature(&m.to_bytes(), &sk64).to_vec());
}

#[test]
fn encrypt_writes_json_under_aes() {
    let mut w = Wallet::new();
    w.add_key_pair(([1u64; 8], [2u64; 4]));
    let pass = [5u8; 32];
    let json = serde_json::to_vec(&w.privkeys).unwrap();
    let ew = w.encrypt(&pass).expect("encrypt");
    assert_eq!(ew.pubkeys, vec![[2u64; 4]]);
    assert_eq!(ew.privkeys.len() % 16, 0);
    assert!(ew.privkeys.len() > json.len());
    assert_ne!(&ew.privkeys[..json.len()], json.as_slice());
}

#[test]
fn decrypt_fails_on_garbage() {
    let ew = EncryptedWallet { pubkeys: vec![[9u64; 4]], privkeys: vec![1, 2, 3] };
    match Wallet::decrypt(ew, &[5u8; 32]) {
        Err(LoomError::AES(_)) => {}
        _ => panic!("expected an AES error"),
    }
}

#[test]
fn decrypt_of_empty_wallet() {
    // nothing to decrypt: the empty plaintext is not JSON
    let ew = EncryptedWallet::new();
    match Wallet::decrypt(ew, &[5u8; 32]) {
        Err(LoomError::JSON(_)) | Err(LoomError::AES(_)) => {}
        _ => panic!("expected an error"),
    }
}

#[test]
fn private_keys_are_compact_json() {
    let keys = vec![[1u64, 2, 3, 4, 5, 6, 7, 18446744073709551615], [0u64; 8]];
    assert_eq!(
        serde_json::to_vec(&keys).unwrap(),
        b"[[1,2,3,4,5,6,7,18446744073709551615],[0,0,0,0,0,0,0,0]]".to_vec()
    );
    let empty: Vec<[u64; 8]> = vec![];
    assert_eq!(serde_json::to_vec(&empty).unwrap(), b"[]".to_vec());
}

#[test]
fn keypair_secret_holds_seed_and_public_key() {
    let seed = [3u8; 64];
    let (sk, pk) = Wallet::keypair_from_seed(&seed);
    let sb = words_to_bytes(&sk);
    assert_eq!(&sb[0..32], &seed[0..32]);
    assert_eq!(&sb[32..64], words_to_bytes(&pk).as_slice());
}

#[test]
fn find_keypair_by_public_key() {
    let mut w = Wallet::new();
    w.add_key_pair(([1u64; 8], [2u64; 4]));
    w.add_key_pair(([3u64; 8], [4u64; 4]));
    let key: [u8; 32] = words_to_bytes(&[4u64; 4]).try_into().unwrap();
    assert_eq!(w.find_keypair(&key), Some(([3u64; 8], [4u64; 4])));
    assert_eq!(w.find_keypair(&[9u8; 32]), None);
}
