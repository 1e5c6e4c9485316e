//! Wallet: key pairs as little-endian words, and the private keys kept encrypted:
//! written as JSON, then run through rust-crypto's AES-256-CBC with PKCS padding
//! under the password and an empty initial vector. With an empty vector the CBC
//! code chains each block with nothing, so every ciphertext block is the cipher of
//! a zero block and decryption writes nothing back: the keys cannot be recovered.
use crate::codec::{le_bytes, le_value, lemma_le_bytes_len, lemma_le_bytes_value, lemma_le_value_bound, lemma_le_value_bytes, lemma_pow256_facts, push_le, read_64, read_le, bytes_equal};
use crate::data::{message_bytes, Message, Signature};
use crate::result::{LoomError, Result};
#[allow(unused_imports)]
use crypto::buffer::{ReadBuffer, WriteBuffer};
#[allow(unused_imports)]
use rand::Rng;
use vstd::prelude::*;

verus! {

/// A private key of 64 bytes and a public key of 32, each as little-endian words.
pub type Keypair = ([u64; 8], [u64; 4]);

pub struct EncryptedWallet {
    pub pubkeys: Vec<[u64; 4]>,
    pub privkeys: Vec<u8>,
}

pub struct Wallet {
    pub pubkeys: Vec<[u64; 4]>,
    pub privkeys: Vec<[u64; 8]>,
}

// ----- names for what the outside functions compute -----

/// The decimal digits of `n`, most significant first, with no leading zeros.
pub open spec fn decimal(n: nat) -> Seq<u8>
    decreases n,
{
    if n < 10 {
        seq![(48 + n) as u8]
    } else {
        decimal(n / 10) + seq![(48 + n % 10) as u8]
    }
}

/// The items separated by commas.
pub open spec fn join_commas(items: Seq<Seq<u8>>) -> Seq<u8>
    decreases items.len(),
{
    if items.len() == 0 {
        Seq::empty()
    } else if items.len() == 1 {
        items[0]
    } else {
        join_commas(items.drop_last()) + seq![44u8] + items.last()
    }
}

/// A compact JSON array of the items: `[`, the items separated by commas, `]`.
pub open spec fn json_array(items: Seq<Seq<u8>>) -> Seq<u8> {
    seq![91u8] + join_commas(items) + seq![93u8]
}

/// The compact JSON of a private key: an array of its eight numbers in decimal.
pub open spec fn key_json(k: [u64; 8]) -> Seq<u8> {
    json_array(Seq::new(8, |i: int| decimal(k@[i] as nat)))
}

/// The compact JSON that `serde_json::to_vec` writes for a list of private keys: an
/// array of their arrays.
pub open spec fn privkeys_json(keys: Seq<[u64; 8]>) -> Seq<u8> {
    json_array(keys.map_values(|k: [u64; 8]| key_json(k)))
}

/// `serde_json::from_slice` read as a list of private keys: the list, or `None` where
/// the bytes are not such JSON.
pub uninterp spec fn json_privkeys(bytes: Seq<u8>) -> Option<Seq<[u64; 8]>>;

/// AES-256-CBC encryption with PKCS padding under `key` and initial vector `iv`, or
/// `None` where it fails.
pub uninterp spec fn aes_cbc_encrypt(data: Seq<u8>, key: Seq<u8>, iv: Seq<u8>) -> Option<Seq<u8>>;

/// AES-256-CBC decryption with PKCS padding under `key` and initial vector `iv`, or
/// `None` where it fails.
pub uninterp spec fn aes_cbc_decrypt(data: Seq<u8>, key: Seq<u8>, iv: Seq<u8>) -> Option<Seq<u8>>;

/// The ed25519 key pair (64-byte secret, 32-byte public key) derived from `seed`.
pub uninterp spec fn ed25519_keypair_of(seed: Seq<u8>) -> (Seq<u8>, Seq<u8>);

/// The ed25519 signature of `msg` under the 64-byte `secret`.
pub uninterp spec fn ed25519_signature_of(msg: Seq<u8>, secret: Seq<u8>) -> Seq<u8>;

// ----- trusted calls -----

/// `serde_json::to_vec` on the private keys: the compact JSON `privkeys_json` of them.
/// It cannot fail: the numbers are written with `itoa` into a `Vec`, and writing into
/// a `Vec` never fails.
#[verifier::external_body]
fn encode_privkeys(keys: &Vec<[u64; 8]>) -> (r: core::result::Result<Vec<u8>, serde_json::Error>)
    ensures
        match r {
            Ok(b) => b@ == privkeys_json(keys@),
            Err(_) => false,
        },
{
    serde_json::to_vec(keys)
}

/// `serde_json::from_slice` into a list of private keys: its result is
/// `json_privkeys` of the bytes. The compact JSON that `to_vec` writes for a list of
/// keys reads back as that list.
#[verifier::external_body]
fn decode_privkeys(bytes: &[u8]) -> (r: core::result::Result<Vec<[u64; 8]>, serde_json::Error>)
    ensures
        match r {
            Ok(k) => json_privkeys(bytes@) == Some(k@) && forall|keys: Seq<[u64; 8]>|
                #[trigger] privkeys_json(keys) == bytes@ ==> k@ == keys,
            Err(_) => json_privkeys(bytes@) is None && forall|keys: Seq<[u64; 8]>|
                #[trigger] privkeys_json(keys) != bytes@,
        },
{
    serde_json::from_slice(bytes)
}

/// rust-crypto's `aes::cbc_encryptor` (AES-256, PKCS padding) run once over all of
/// `data` into an output buffer of `room` bytes: its result is `aes_cbc_encrypt`.
/// The key must be 32 bytes (other lengths panic or read past the key), and `room`
/// leaves space for the padding block, so one call encrypts everything.
#[verifier::external_body]
fn aes_encrypt(data: &[u8], key: &[u8], iv: &[u8], room: usize) -> (r: core::result::Result<Vec<u8>, crypto::symmetriccipher::SymmetricCipherError>)
    requires
        key@.len() == 32,
        iv@.len() == 0,
        room >= data@.len() + 16,
    ensures
        match r {
            Ok(e) => aes_cbc_encrypt(data@, key@, iv@) == Some(e@),
            Err(_) => aes_cbc_encrypt(data@, key@, iv@) is None,
        },
{
    let mut enc = crypto::aes::cbc_encryptor(crypto::aes::KeySize::KeySize256, key, iv, crypto::blockmodes::PkcsPadding);
    let mut out = vec![0u8; room];
    let mut w = crypto::buffer::RefWriteBuffer::new(&mut out);
    enc.encrypt(&mut crypto::buffer::RefReadBuffer::new(data), &mut w, true)?;
    let r = w.take_read_buffer().take_remaining().to_vec();
    Ok(r)
}

/// rust-crypto's `aes::cbc_decryptor` (AES-256, PKCS padding) run once over all of
/// `data` into an output buffer of `room` bytes: its result is `aes_cbc_decrypt`.
/// Decryption never writes more bytes than it reads, so `room` of the input's length
/// lets one call decrypt everything.
#[verifier::external_body]
fn aes_decrypt(data: &[u8], key: &[u8], iv: &[u8], room: usize) -> (r: core::result::Result<Vec<u8>, crypto::symmetriccipher::SymmetricCipherError>)
    requires
        key@.len() == 32,
        iv@.len() == 0,
        room >= data@.len(),
    ensures
        match r {
            Ok(d) => aes_cbc_decrypt(data@, key@, iv@) == Some(d@),
            Err(_) => aes_cbc_decrypt(data@, key@, iv@) is None,
        },
{
    let mut dec = crypto::aes::cbc_decryptor(crypto::aes::KeySize::KeySize256, key, iv, crypto::blockmodes::PkcsPadding);
    let mut out = vec![0u8; room];
    let mut w = crypto::buffer::RefWriteBuffer::new(&mut out);
    dec.decrypt(&mut crypto::buffer::RefReadBuffer::new(data), &mut w, true)?;
    let r = w.take_read_buffer().take_remaining().to_vec();
    Ok(r)
}

/// 64 bytes from the operating system's random source (`rand::os::OsRng`). Nothing
/// is stated of them; the source may fail to open.
#[verifier::external_body]
fn os_random_seed() -> (r: core::result::Result<[u8; 64], std::io::Error>) {
    let mut rnd = rand::os::OsRng::new()?;
    let mut seed = [0u8; 64];
    rnd.fill_bytes(&mut seed);
    Ok(seed)
}

/// rust-crypto's `ed25519::keypair`: its result is `ed25519_keypair_of` of the seed.
/// The secret's upper 32 bytes are the public key, and its lower 32 bytes are copied
/// from the front of the seed (all of them when the seed has 32 or more).
#[verifier::external_body]
fn ed25519_keypair(seed: &[u8]) -> (r: ([u8; 64], [u8; 32]))
    ensures
        (r.0@, r.1@) == ed25519_keypair_of(seed@),
        r.0@.subrange(32, 64) == r.1@,
        seed@.len() >= 32 ==> r.0@.subrange(0, 32) == seed@.subrange(0, 32),
{
    crypto::ed25519::keypair(seed)
}

/// rust-crypto's `ed25519::signature`: its result is `ed25519_signature_of` of the
/// message and the secret.
#[verifier::external_body]
fn ed25519_sign(msg: &[u8], secret: &[u8; 64]) -> (r: [u8; 64])
    ensures
        r@ == ed25519_signature_of(msg@, secret@),
{
    crypto::ed25519::signature(msg, secret)
}

// ----- words and bytes -----

/// The little-endian 8-byte words that `b` spells, in order.
pub open spec fn bytes_words(b: Seq<u8>) -> Seq<u64> {
    Seq::new(b.len() / 8, |i: int| le_value(b.subrange(8 * i, 8 * i + 8)) as u64)
}

/// The bytes of the words `w`, each little-endian.
pub open spec fn words_bytes(w: Seq<u64>) -> Seq<u8>
    decreases w.len(),
{
    if w.len() == 0 {
        Seq::empty()
    } else {
        words_bytes(w.drop_last()) + le_bytes(w.last() as nat, 8)
    }
}

pub proof fn lemma_words_bytes_len(w: Seq<u64>)
    ensures
        words_bytes(w).len() == 8 * w.len(),
    decreases w.len(),
{
    if w.len() > 0 {
        lemma_words_bytes_len(w.drop_last());
        lemma_le_bytes_len(w.last() as nat, 8);
    }
}

/// Laying words out as bytes and reading them back gives the words again.
#[verifier::spinoff_prover]
pub proof fn lemma_words_roundtrip(w: Seq<u64>)
    ensures
        bytes_words(words_bytes(w)) == w,
    decreases w.len(),
{
    lemma_words_bytes_len(w);
    if w.len() > 0 {
        let p = w.drop_last();
        lemma_words_roundtrip(p);
        lemma_words_bytes_len(p);
        let b = words_bytes(w);
        let n = w.len() - 1;
        lemma_pow256_facts(8);
        lemma_le_bytes_value(w.last() as nat, 8);
        assert forall|i: int| 0 <= i < w.len() implies bytes_words(b)[i] == w[i] by {
            if i < n {
                assert(b.subrange(8 * i, 8 * i + 8) =~= words_bytes(p).subrange(8 * i, 8 * i + 8));
                assert(bytes_words(words_bytes(p))[i] == p[i]);
            } else {
                assert(b.subrange(8 * i, 8 * i + 8) =~= le_bytes(w.last() as nat, 8));
            }
        }
        assert(bytes_words(b) =~= w);
    }
}

/// Reading bytes as words and laying them out again gives the bytes again.
#[verifier::spinoff_prover]
pub proof fn lemma_bytes_roundtrip(b: Seq<u8>)
    requires
        b.len() % 8 == 0,
    ensures
        words_bytes(bytes_words(b)) == b,
    decreases b.len(),
{
    if b.len() > 0 {
        let p = b.subrange(0, b.len() - 8);
        lemma_bytes_roundtrip(p);
        let w = bytes_words(b);
        assert(w.drop_last() =~= bytes_words(p)) by {
            assert forall|i: int| 0 <= i < w.len() - 1 implies w.drop_last()[i] == bytes_words(p)[i] by {
                assert(b.subrange(8 * i, 8 * i + 8) =~= p.subrange(8 * i, 8 * i + 8));
            }
        }
        let last = b.subrange(b.len() - 8, b.len() as int);
        lemma_le_value_bound(last);
        lemma_pow256_facts(8);
        lemma_le_value_bytes(last);
        assert(w.last() as nat == le_value(last));
        assert(words_bytes(w) =~= b);
    }
}

/// The key pair, as words, that `seed` derives.
pub open spec fn keypair_of_seed(seed: Seq<u8>) -> (Seq<u64>, Seq<u64>) {
    (bytes_words(ed25519_keypair_of(seed).0), bytes_words(ed25519_keypair_of(seed).1))
}

fn words_8(b: &[u8; 64]) -> (w: [u64; 8])
    ensures
        w@ == bytes_words(b@),
{
    let mut w = [0u64; 8];
    let mut i: usize = 0;
    while i < 8
        invariant
            i <= 8,
            w@.len() == 8,
            forall|j: int| 0 <= j < i ==> w@[j] == bytes_words(b@)[j],
        decreases 8 - i,
    {
        w[i] = read_le(b, 8 * i, 8);
        i += 1;
    }
    proof {
        assert(w@ =~= bytes_words(b@));
    }
    w
}

fn words_4(b: &[u8; 32]) -> (w: [u64; 4])
    ensures
        w@ == bytes_words(b@),
{
    let mut w = [0u64; 4];
    let mut i: usize = 0;
    while i < 4
        invariant
            i <= 4,
            w@.len() == 4,
            forall|j: int| 0 <= j < i ==> w@[j] == bytes_words(b@)[j],
        decreases 4 - i,
    {
        w[i] = read_le(b, 8 * i, 8);
        i += 1;
    }
    proof {
        assert(w@ =~= bytes_words(b@));
    }
    w
}

/// The bytes of the words `w`, each little-endian, as a transmute on a
/// little-endian machine lays them out.
pub fn words_to_bytes(w: &[u64]) -> (v: Vec<u8>)
    ensures
        v@ == words_bytes(w@),
        v@.len() == 8 * w@.len(),
{
    let mut v: Vec<u8> = Vec::new();
    let mut i: usize = 0;
    while i < w.len()
        invariant
            i <= w@.len(),
            v@ == words_bytes(w@.subrange(0, i as int)),
        decreases w@.len() - i,
    {
        push_le(&mut v, w[i], 8);
        proof {
            assert(w@.subrange(0, i as int + 1).drop_last() =~= w@.subrange(0, i as int));
        }
        i += 1;
    }
    proof {
        assert(w@.subrange(0, w@.len() as int) =~= w@);
        lemma_words_bytes_len(w@);
    }
    v
}

/// Slot `i` of the wallet holds a key pair whose public key, laid out as bytes, is
/// `key`.
pub open spec fn holds_key(w: &Wallet, key: Seq<u8>, i: int) -> bool {
    0 <= i < w.pubkeys@.len() && i < w.privkeys@.len() && words_bytes(w.pubkeys@[i]@) == key
}

impl EncryptedWallet {
    pub fn new() -> (w: EncryptedWallet)
        ensures
            w.pubkeys@.len() == 0,
            w.privkeys@.len() == 0,
    {
        EncryptedWallet { pubkeys: Vec::new(), privkeys: Vec::new() }
    }
}

impl Wallet {
    pub fn new() -> (w: Wallet)
        ensures
            w.pubkeys@.len() == 0,
            w.privkeys@.len() == 0,
    {
        Wallet { pubkeys: Vec::new(), privkeys: Vec::new() }
    }

    /// Appends the private key and the public key of the pair.
    pub fn add_key_pair(&mut self, pk: Keypair)
        ensures
            final(self).privkeys@ == old(self).privkeys@.push(pk.0),
            final(self).pubkeys@ == old(self).pubkeys@.push(pk.1),
    {
        self.privkeys.push(pk.0);
        self.pubkeys.push(pk.1);
    }

    /// Runs the private keys through AES-256-CBC decryption under `pass` with an empty
    /// initial vector and reads the result as JSON; the public keys carry over.
    pub fn decrypt(ew: EncryptedWallet, pass: &[u8]) -> (r: Result<Wallet>)
        requires
            pass@.len() == 32,
        ensures
            match aes_cbc_decrypt(ew.privkeys@, pass@, Seq::empty()) {
                None => r matches Err(e) && e is AES,
                Some(d) => match json_privkeys(d) {
                    None => r matches Err(e) && e is JSON,
                    Some(keys) => r matches Ok(w) && w.privkeys@ == keys && w.pubkeys@ == ew.pubkeys@,
                },
            },
            forall|keys: Seq<[u64; 8]>|
                aes_cbc_decrypt(ew.privkeys@, pass@, Seq::empty()) == Some(#[trigger] privkeys_json(keys)) ==> (r matches Ok(
                    w,
                ) && w.privkeys@ == keys && w.pubkeys@ == ew.pubkeys@),
    {
        let iv: [u8; 0] = [];
        proof {
            assert(iv@ =~= Seq::<u8>::empty());
        }
        let d = match aes_decrypt(ew.privkeys.as_slice(), pass, &iv, ew.privkeys.len()) {
            Ok(d) => d,
            Err(e) => return Err(LoomError::AES(e)),
        };
        let pks = match decode_privkeys(d.as_slice()) {
            Ok(k) => k,
            Err(e) => return Err(LoomError::JSON(e)),
        };
        Ok(Wallet { pubkeys: ew.pubkeys, privkeys: pks })
    }

    /// Writes the private keys as compact JSON and runs them through AES-256-CBC under
    /// `pass` with an empty initial vector, which (see the module's note) does not
    /// keep them recoverable; the public keys carry over. JSON too long to pad to a
    /// whole block within `usize` is `ToLarge`.
    pub fn encrypt(self, pass: &[u8]) -> (r: Result<EncryptedWallet>)
        requires
            pass@.len() == 32,
        ensures
            ({
                let j = privkeys_json(self.privkeys@);
                if j.len() + 16 > usize::MAX {
                    r matches Err(e) && e is ToLarge
                } else {
                    match aes_cbc_encrypt(j, pass@, Seq::empty()) {
                        None => r matches Err(e) && e is AES,
                        Some(c) => r matches Ok(ew) && ew.privkeys@ == c && ew.pubkeys@ == self.pubkeys@,
                    }
                }
            }),
    {
        let pks = match encode_privkeys(&self.privkeys) {
            Ok(b) => b,
            Err(e) => return Err(LoomError::JSON(e)),
        };
        if pks.len() > usize::MAX - 16 {
            return Err(LoomError::ToLarge);
        }
        let iv: [u8; 0] = [];
        proof {
            assert(iv@ =~= Seq::<u8>::empty());
        }
        let e = match aes_encrypt(pks.as_slice(), pass, &iv, pks.len() + 16) {
            Ok(e) => e,
            Err(e) => return Err(LoomError::AES(e)),
        };
        Ok(EncryptedWallet { pubkeys: self.pubkeys, privkeys: e })
    }

    /// The key pair that `seed` derives: ed25519's secret and public key, read as
    /// little-endian words.
    pub fn keypair_from_seed(seed: &[u8]) -> (kp: Keypair)
        ensures
            (kp.0@, kp.1@) == keypair_of_seed(seed@),
            words_bytes(kp.0@).subrange(32, 64) == words_bytes(kp.1@),
            seed@.len() >= 32 ==> words_bytes(kp.0@).subrange(0, 32) == seed@.subrange(0, 32),
    {
        let (a, b) = ed25519_keypair(seed);
        let kp = (words_8(&a), words_4(&b));
        proof {
            lemma_bytes_roundtrip(a@);
            lemma_bytes_roundtrip(b@);
        }
        kp
    }

    /// A fresh key pair from 64 random bytes of the operating system.
    pub fn new_keypair() -> (r: Result<Keypair>)
        ensures
            r matches Ok(kp) ==> exists|seed: Seq<u8>|
                seed.len() == 64 && (kp.0@, kp.1@) == keypair_of_seed(seed) && words_bytes(kp.0@).subrange(0, 32)
                    == seed.subrange(0, 32),
            r matches Ok(kp) ==> words_bytes(kp.0@).subrange(32, 64) == words_bytes(kp.1@),
            r is Err ==> (r matches Err(e) && e is IO),
    {
        let seed = match os_random_seed() {
            Ok(s) => s,
            Err(e) => return Err(LoomError::from_io(e)),
        };
        Ok(Self::keypair_from_seed(&seed))
    }

    /// The first key pair of the wallet whose public key, laid out as bytes, is `key`.
    pub fn find_keypair(&self, key: &[u8; 32]) -> (r: Option<Keypair>)
        ensures
            match r {
                Some(kp) => exists|i: int|
                    holds_key(self, key@, i) && (forall|j: int| 0 <= j < i ==> !holds_key(self, key@, j))
                        && kp == (self.privkeys@[i], self.pubkeys@[i]),
                None => forall|i: int| !holds_key(self, key@, i),
            },
    {
        let n = if self.pubkeys.len() < self.privkeys.len() {
            self.pubkeys.len()
        } else {
            self.privkeys.len()
        };
        let mut i: usize = 0;
        while i < n
            invariant
                i <= n,
                n <= self.pubkeys@.len(),
                n <= self.privkeys@.len(),
                n == self.pubkeys@.len() || n == self.privkeys@.len(),
                forall|j: int| 0 <= j < i ==> !holds_key(self, key@, j),
            decreases n - i,
        {
            let pk = self.pubkeys[i];
            let b = words_to_bytes(&pk);
            if bytes_equal(b.as_slice(), key) {
                proof {
                    assert(holds_key(self, key@, i as int));
                }
                return Some((self.privkeys[i], pk));
            }
            i += 1;
        }
        None
    }

    /// Signs the message's 160 bytes with the secret of the pair, laid out as bytes.
    pub fn sign(kp: Keypair, msg: &Message) -> (s: Signature)
        ensures
            s.data@ == ed25519_signature_of(message_bytes(*msg), words_bytes(kp.0@)),
    {
        let sb = words_to_bytes(&kp.0);
        let secret = read_64(sb.as_slice(), 0);
        proof {
            assert(sb@.subrange(0, 64) =~= sb@);
        }
        let bytes = msg.to_bytes();
        Signature { data: ed25519_sign(bytes.as_slice(), &secret) }
    }
}

/// A key pair derived from a seed holds ed25519's secret for that seed: laying the
/// secret words out as bytes, as `sign` does, gives back ed25519's secret bytes.
pub proof fn lemma_sign_uses_derived_secret(seed: Seq<u8>)
    requires
        ed25519_keypair_of(seed).0.len() == 64,
    ensures
        words_bytes(keypair_of_seed(seed).0) == ed25519_keypair_of(seed).0,
{
    lemma_bytes_roundtrip(ed25519_keypair_of(seed).0);
}

} // verus!
