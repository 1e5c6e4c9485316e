//! Messages, accounts and their little-endian C layout (LP64): a `Message` is 160
//! bytes, the version, the kind and state bytes, two unused bytes, and a 152-byte
//! payload that is read as a transaction, a proof-of-history entry or a subscription.
use crate::codec::{
    be_value, le_bytes, le_value, lemma_le_bytes_len, lemma_le_bytes_value,
    lemma_le_value_bound, lemma_le_value_bytes, lemma_pow256_facts, push_bytes, push_le, push_zeros,
    read_152, read_32, read_4, read_be, read_le, zeros,
};
use crate::hasht::{HashT, Key, Val};
use vstd::prelude::*;

verus! {

#[derive(Copy, Clone)]
pub struct Transaction {
    pub lvh: [u8; 32],
    pub from: [u8; 32],
    pub to: [u8; 32],
    pub lvh_count: u64,
    pub amount: u64,
    pub fee: u64,
    pub signature: [u8; 32],
}

#[derive(Copy, Clone)]
pub struct POH {
    pub hash: [u8; 32],
    pub counter: u64,
}

#[derive(Copy, Clone)]
pub struct Signature {
    pub data: [u8; 64],
}

#[derive(Copy, Clone)]
pub struct Subscriber {
    pub key: [u8; 32],
    pub addr: [u8; 4],
    pub port: u16,
}

/// Size of the payload shared by the three readings of a message.
pub const DATA_SIZE: usize = 152;

/// Size of a message on the wire and in the ledger.
pub const MESSAGE_SIZE: usize = 160;

pub const MAX_PACKET: usize = 1024 * 4;

/// The payload of a message: raw bytes that read as a `Transaction`, a `POH` or a
/// `Subscriber`, each laid out from the first byte on.
#[derive(Copy, Clone)]
pub struct MessageData {
    pub bytes: [u8; 152],
}

#[derive(PartialEq, Eq, Structural, Copy, Clone, Debug)]
pub enum Kind {
    Invalid,
    Transaction,
    Signature,
    Subscribe,
}

#[derive(PartialEq, Eq, Structural, Copy, Clone, Debug)]
pub enum State {
    Unknown,
    Withdrawn,
    Deposited,
}

#[derive(Copy, Clone)]
pub struct Message {
    pub version: u32,
    pub kind: Kind,
    pub state: State,
    pub unused: u16,
    pub data: MessageData,
}

#[derive(Copy, Clone)]
pub struct Account {
    pub from: [u8; 32],
    pub balance: u64,
}

pub type AccountT = HashT<[u8; 32], Account>;

// ----- layouts -----

pub open spec fn tx_layout(t: Transaction, b: Seq<u8>) -> bool {
    &&& t.lvh@ == b.subrange(0, 32)
    &&& t.from@ == b.subrange(32, 64)
    &&& t.to@ == b.subrange(64, 96)
    &&& t.lvh_count as nat == le_value(b.subrange(96, 104))
    &&& t.amount as nat == le_value(b.subrange(104, 112))
    &&& t.fee as nat == le_value(b.subrange(112, 120))
    &&& t.signature@ == b.subrange(120, 152)
}

/// The 152 bytes of a transaction.
pub open spec fn tx_bytes(t: Transaction) -> Seq<u8> {
    t.lvh@ + t.from@ + t.to@ + le_bytes(t.lvh_count as nat, 8) + le_bytes(t.amount as nat, 8)
        + le_bytes(t.fee as nat, 8) + t.signature@
}

/// The transaction that payload bytes `b` read as.
pub open spec fn decode_tx(b: Seq<u8>) -> Transaction {
    choose|t: Transaction| tx_layout(t, b)
}

pub open spec fn poh_layout(p: POH, b: Seq<u8>) -> bool {
    &&& p.hash@ == b.subrange(0, 32)
    &&& p.counter as nat == le_value(b.subrange(32, 40))
}

pub open spec fn poh_bytes(p: POH) -> Seq<u8> {
    p.hash@ + le_bytes(p.counter as nat, 8)
}

pub open spec fn decode_poh(b: Seq<u8>) -> POH {
    choose|p: POH| poh_layout(p, b)
}

pub open spec fn sub_layout(s: Subscriber, b: Seq<u8>) -> bool {
    &&& s.key@ == b.subrange(0, 32)
    &&& s.addr@ == b.subrange(32, 36)
    &&& s.port as nat == le_value(b.subrange(36, 38))
}

pub open spec fn sub_bytes(s: Subscriber) -> Seq<u8> {
    s.key@ + s.addr@ + le_bytes(s.port as nat, 2)
}

pub open spec fn decode_sub(b: Seq<u8>) -> Subscriber {
    choose|s: Subscriber| sub_layout(s, b)
}

pub open spec fn kind_byte(k: Kind) -> u8 {
    match k {
        Kind::Invalid => 0,
        Kind::Transaction => 1,
        Kind::Signature => 2,
        Kind::Subscribe => 3,
    }
}

pub open spec fn state_byte(s: State) -> u8 {
    match s {
        State::Unknown => 0,
        State::Withdrawn => 1,
        State::Deposited => 2,
    }
}

/// The 160 bytes of a message.
pub open spec fn message_bytes(m: Message) -> Seq<u8> {
    le_bytes(m.version as nat, 4) + seq![kind_byte(m.kind), state_byte(m.state)] + le_bytes(
        m.unused as nat,
        2,
    ) + m.data.bytes@
}

pub open spec fn message_layout(m: Message, b: Seq<u8>) -> bool {
    &&& b.len() == 160
    &&& m.version as nat == le_value(b.subrange(0, 4))
    &&& kind_byte(m.kind) == b[4]
    &&& state_byte(m.state) == b[5]
    &&& m.unused as nat == le_value(b.subrange(6, 8))
    &&& m.data.bytes@ == b.subrange(8, 160)
}

/// Bytes that hold a message: 160 of them, with a known kind and state.
pub open spec fn valid_message_bytes(b: Seq<u8>) -> bool {
    b.len() == 160 && b[4] < 4 && b[5] < 3
}

pub open spec fn decode_message(b: Seq<u8>) -> Option<Message> {
    if valid_message_bytes(b) {
        Some(choose|m: Message| message_layout(m, b))
    } else {
        None
    }
}

impl MessageData {
    pub open spec fn tx_spec(self) -> Transaction {
        decode_tx(self.bytes@)
    }

    pub open spec fn poh_spec(self) -> POH {
        decode_poh(self.bytes@)
    }

    pub open spec fn sub_spec(self) -> Subscriber {
        decode_sub(self.bytes@)
    }
}

impl Message {
    pub open spec fn tx_spec(self) -> Transaction {
        self.data.tx_spec()
    }

    pub open spec fn poh_spec(self) -> POH {
        self.data.poh_spec()
    }

    pub open spec fn sub_spec(self) -> Subscriber {
        self.data.sub_spec()
    }
}

// ----- uniqueness of readings -----

proof fn lemma_tx_layout_unique(t1: Transaction, t2: Transaction, b: Seq<u8>)
    requires
        tx_layout(t1, b),
        tx_layout(t2, b),
    ensures
        t1 == t2,
{
    assert(t1.lvh =~= t2.lvh);
    assert(t1.from =~= t2.from);
    assert(t1.to =~= t2.to);
    assert(t1.signature =~= t2.signature);
}

proof fn lemma_poh_layout_unique(p1: POH, p2: POH, b: Seq<u8>)
    requires
        poh_layout(p1, b),
        poh_layout(p2, b),
    ensures
        p1 == p2,
{
    assert(p1.hash =~= p2.hash);
}

proof fn lemma_sub_layout_unique(s1: Subscriber, s2: Subscriber, b: Seq<u8>)
    requires
        sub_layout(s1, b),
        sub_layout(s2, b),
    ensures
        s1 == s2,
{
    assert(s1.key =~= s2.key);
    assert(s1.addr =~= s2.addr);
}

proof fn lemma_message_layout_unique(m1: Message, m2: Message, b: Seq<u8>)
    requires
        message_layout(m1, b),
        message_layout(m2, b),
    ensures
        m1 == m2,
{
    assert(m1.data.bytes =~= m2.data.bytes);
    assert(m1.data == m2.data);
}

/// A transaction written as payload bytes reads back as itself.
pub proof fn lemma_tx_roundtrip(t: Transaction)
    ensures
        tx_bytes(t).len() == 152,
        tx_layout(t, tx_bytes(t)),
        decode_tx(tx_bytes(t)) == t,
{
    lemma_pow256_facts(8);
    lemma_le_bytes_value(t.lvh_count as nat, 8);
    lemma_le_bytes_value(t.amount as nat, 8);
    lemma_le_bytes_value(t.fee as nat, 8);
    let b = tx_bytes(t);
    assert(b.subrange(0, 32) =~= t.lvh@);
    assert(b.subrange(32, 64) =~= t.from@);
    assert(b.subrange(64, 96) =~= t.to@);
    assert(b.subrange(96, 104) =~= le_bytes(t.lvh_count as nat, 8));
    assert(b.subrange(104, 112) =~= le_bytes(t.amount as nat, 8));
    assert(b.subrange(112, 120) =~= le_bytes(t.fee as nat, 8));
    assert(b.subrange(120, 152) =~= t.signature@);
    assert(tx_layout(t, b));
    lemma_tx_layout_unique(decode_tx(b), t, b);
}

/// A proof-of-history entry written as payload bytes reads back as itself.
pub proof fn lemma_poh_roundtrip(p: POH, rest: Seq<u8>)
    ensures
        poh_layout(p, poh_bytes(p) + rest),
        decode_poh(poh_bytes(p) + rest) == p,
{
    lemma_pow256_facts(8);
    lemma_le_bytes_value(p.counter as nat, 8);
    let b = poh_bytes(p) + rest;
    assert(b.subrange(0, 32) =~= p.hash@);
    assert(b.subrange(32, 40) =~= le_bytes(p.counter as nat, 8));
    assert(poh_layout(p, b));
    lemma_poh_layout_unique(decode_poh(b), p, b);
}

/// A subscription written as payload bytes reads back as itself.
pub proof fn lemma_sub_roundtrip(s: Subscriber, rest: Seq<u8>)
    ensures
        sub_layout(s, sub_bytes(s) + rest),
        decode_sub(sub_bytes(s) + rest) == s,
{
    lemma_pow256_facts(2);
    lemma_le_bytes_value(s.port as nat, 2);
    let b = sub_bytes(s) + rest;
    assert(b.subrange(0, 32) =~= s.key@);
    assert(b.subrange(32, 36) =~= s.addr@);
    assert(b.subrange(36, 38) =~= le_bytes(s.port as nat, 2));
    assert(sub_layout(s, b));
    lemma_sub_layout_unique(decode_sub(b), s, b);
}

/// A message written as bytes reads back as itself.
pub proof fn lemma_message_roundtrip(m: Message)
    ensures
        message_bytes(m).len() == 160,
        decode_message(message_bytes(m)) == Some(m),
{
    lemma_pow256_facts(4);
    lemma_pow256_facts(2);
    lemma_le_bytes_value(m.version as nat, 4);
    lemma_le_bytes_value(m.unused as nat, 2);
    let b = message_bytes(m);
    assert(b.subrange(0, 4) =~= le_bytes(m.version as nat, 4));
    assert(b.subrange(6, 8) =~= le_bytes(m.unused as nat, 2));
    assert(b.subrange(8, 160) =~= m.data.bytes@);
    assert(message_layout(m, b));
    lemma_message_layout_unique(choose|m2: Message| message_layout(m2, b), m, b);
}

/// Bytes that read as a message are exactly that message's bytes.
pub proof fn lemma_message_bytes_of_decoded(b: Seq<u8>)
    requires
        decode_message(b) is Some,
    ensures
        message_bytes(decode_message(b).unwrap()) == b,
{
    let m = decode_message(b).unwrap();
    lemma_message_exists(b);
    lemma_le_value_bytes(b.subrange(0, 4));
    lemma_le_value_bytes(b.subrange(6, 8));
    assert(message_bytes(m) =~= b);
}

/// Valid message bytes do read as some message.
#[verifier::spinoff_prover]
proof fn lemma_message_exists(b: Seq<u8>)
    requires
        valid_message_bytes(b),
    ensures
        message_layout(decode_message(b).unwrap(), b),
{
    lemma_pow256_facts(4);
    lemma_pow256_facts(2);
    lemma_le_value_bound(b.subrange(0, 4));
    lemma_le_value_bound(b.subrange(6, 8));
    let witness = Message {
        version: le_value(b.subrange(0, 4)) as u32,
        kind: if b[4] == 0 {
            Kind::Invalid
        } else if b[4] == 1 {
            Kind::Transaction
        } else if b[4] == 2 {
            Kind::Signature
        } else {
            Kind::Subscribe
        },
        state: if b[5] == 0 {
            State::Unknown
        } else if b[5] == 1 {
            State::Withdrawn
        } else {
            State::Deposited
        },
        unused: le_value(b.subrange(6, 8)) as u16,
        data: MessageData { bytes: array_of_152(b.subrange(8, 160)) },
    };
    lemma_array_of_152(b.subrange(8, 160));
    assert(message_layout(witness, b));
}

/// An array holding the first 152 elements of `s` (zeros past its end).
pub open spec fn array_of_152(s: Seq<u8>) -> [u8; 152] {
    array_prefix(s, 152)
}

pub open spec fn array_prefix(s: Seq<u8>, k: nat) -> [u8; 152]
    decreases k,
{
    if k == 0 {
        vstd::array::spec_array_fill_for_copy_type::<u8, 152>(0u8)
    } else {
        vstd::array::spec_array_update(array_prefix(s, (k - 1) as nat), k - 1, s[k - 1])
    }
}

proof fn lemma_array_prefix(s: Seq<u8>, k: nat)
    requires
        k <= 152,
        s.len() >= k,
    ensures
        forall|i: int| 0 <= i < k ==> array_prefix(s, k)@[i] == s[i],
    decreases k,
{
    if k > 0 {
        lemma_array_prefix(s, (k - 1) as nat);
    }
}

proof fn lemma_array_of_152(s: Seq<u8>)
    requires
        s.len() == 152,
    ensures
        array_of_152(s)@ == s,
{
    lemma_array_prefix(s, 152);
    assert(array_of_152(s)@ =~= s);
}

// ----- executable readings and writings -----

impl MessageData {
    /// A payload holding the transaction.
    pub fn from_tx(tx: Transaction) -> (r: MessageData)
        ensures
            r.bytes@ == tx_bytes(tx),
            r.tx_spec() == tx,
    {
        let mut v: Vec<u8> = Vec::new();
        push_bytes(&mut v, &tx.lvh);
        push_bytes(&mut v, &tx.from);
        push_bytes(&mut v, &tx.to);
        push_le(&mut v, tx.lvh_count, 8);
        push_le(&mut v, tx.amount, 8);
        push_le(&mut v, tx.fee, 8);
        push_bytes(&mut v, &tx.signature);
        proof {
            lemma_le_bytes_len(tx.lvh_count as nat, 8);
            lemma_le_bytes_len(tx.amount as nat, 8);
            lemma_le_bytes_len(tx.fee as nat, 8);
            assert(v@ =~= tx_bytes(tx));
            lemma_tx_roundtrip(tx);
        }
        MessageData { bytes: array_152(&v) }
    }

    /// A payload holding the proof-of-history entry, zeros after it.
    pub fn from_poh(poh: POH) -> (r: MessageData)
        ensures
            r.bytes@ == poh_bytes(poh) + zeros(112),
            r.poh_spec() == poh,
    {
        let mut v: Vec<u8> = Vec::new();
        push_bytes(&mut v, &poh.hash);
        push_le(&mut v, poh.counter, 8);
        push_zeros(&mut v, 112);
        proof {
            lemma_le_bytes_len(poh.counter as nat, 8);
            assert(v@ =~= poh_bytes(poh) + zeros(112));
            lemma_poh_roundtrip(poh, zeros(112));
        }
        MessageData { bytes: array_152(&v) }
    }

    /// A payload holding the subscription, zeros after it.
    pub fn from_sub(sub: Subscriber) -> (r: MessageData)
        ensures
            r.bytes@ == sub_bytes(sub) + zeros(114),
            r.sub_spec() == sub,
    {
        let mut v: Vec<u8> = Vec::new();
        push_bytes(&mut v, &sub.key);
        push_bytes(&mut v, &sub.addr);
        push_le(&mut v, sub.port as u64, 2);
        push_zeros(&mut v, 114);
        proof {
            lemma_le_bytes_len(sub.port as nat, 2);
            assert(v@ =~= sub_bytes(sub) + zeros(114));
            lemma_sub_roundtrip(sub, zeros(114));
        }
        MessageData { bytes: array_152(&v) }
    }

    /// The payload read as a transaction.
    pub fn tx(&self) -> (r: Transaction)
        ensures
            r == self.tx_spec(),
            tx_layout(r, self.bytes@),
    {
        let b: &[u8] = &self.bytes;
        let r = Transaction {
            lvh: read_32(b, 0),
            from: read_32(b, 32),
            to: read_32(b, 64),
            lvh_count: read_le(b, 96, 8),
            amount: read_le(b, 104, 8),
            fee: read_le(b, 112, 8),
            signature: read_32(b, 120),
        };
        proof {
            assert(tx_layout(r, self.bytes@));
            lemma_tx_layout_unique(r, decode_tx(self.bytes@), self.bytes@);
        }
        r
    }

    /// The payload read as a proof-of-history entry.
    pub fn poh(&self) -> (r: POH)
        ensures
            r == self.poh_spec(),
            poh_layout(r, self.bytes@),
    {
        let b: &[u8] = &self.bytes;
        let r = POH { hash: read_32(b, 0), counter: read_le(b, 32, 8) };
        proof {
            assert(poh_layout(r, self.bytes@));
            lemma_poh_layout_unique(r, decode_poh(self.bytes@), self.bytes@);
        }
        r
    }

    /// The payload read as a subscription.
    pub fn sub(&self) -> (r: Subscriber)
        ensures
            r == self.sub_spec(),
            sub_layout(r, self.bytes@),
    {
        let b: &[u8] = &self.bytes;
        let port = read_le(b, 36, 2);
        proof {
            lemma_le_value_bound(self.bytes@.subrange(36, 38));
            lemma_pow256_facts(2);
        }
        let r = Subscriber { key: read_32(b, 0), addr: read_4(b, 32), port: port as u16 };
        proof {
            assert(sub_layout(r, self.bytes@));
            lemma_sub_layout_unique(r, decode_sub(self.bytes@), self.bytes@);
        }
        r
    }
}

/// The array holding the 152 bytes of `v`.
fn array_152(v: &Vec<u8>) -> (r: [u8; 152])
    requires
        v@.len() == 152,
    ensures
        r@ == v@,
{
    read_152(v.as_slice(), 0)
}

fn kind_to_byte(k: Kind) -> (b: u8)
    ensures
        b == kind_byte(k),
{
    match k {
        Kind::Invalid => 0,
        Kind::Transaction => 1,
        Kind::Signature => 2,
        Kind::Subscribe => 3,
    }
}

fn state_to_byte(s: State) -> (b: u8)
    ensures
        b == state_byte(s),
{
    match s {
        State::Unknown => 0,
        State::Withdrawn => 1,
        State::Deposited => 2,
    }
}

impl Message {
    /// The payload read as a transaction.
    pub fn get_tx(&self) -> (r: Transaction)
        ensures
            r == self.tx_spec(),
    {
        self.data.tx()
    }

    /// The payload read as a proof-of-history entry.
    pub fn get_poh(&self) -> (r: POH)
        ensures
            r == self.poh_spec(),
    {
        self.data.poh()
    }

    /// The payload read as a subscription.
    pub fn get_sub(&self) -> (r: Subscriber)
        ensures
            r == self.sub_spec(),
    {
        self.data.sub()
    }

    /// The message's 160 bytes in the little-endian C layout.
    pub fn to_bytes(&self) -> (r: Vec<u8>)
        ensures
            r@ == message_bytes(*self),
    {
        let mut v: Vec<u8> = Vec::new();
        push_le(&mut v, self.version as u64, 4);
        v.push(kind_to_byte(self.kind));
        v.push(state_to_byte(self.state));
        push_le(&mut v, self.unused as u64, 2);
        push_bytes(&mut v, &self.data.bytes);
        proof {
            assert(v@ =~= message_bytes(*self));
        }
        v
    }

    /// The message that `b` holds: `None` unless `b` is 160 bytes with a known kind
    /// and state.
    #[verifier::spinoff_prover]
    pub fn from_bytes(b: &[u8]) -> (r: Option<Message>)
        ensures
            r == decode_message(b@),
    {
        if b.len() != MESSAGE_SIZE || b[4] >= 4 || b[5] >= 3 {
            return None;
        }
        let version = read_le(b, 0, 4);
        let unused = read_le(b, 6, 2);
        proof {
            lemma_pow256_facts(4);
            lemma_pow256_facts(2);
            lemma_le_value_bound(b@.subrange(0, 4));
            lemma_le_value_bound(b@.subrange(6, 8));
        }
        let kind = if b[4] == 0 {
            Kind::Invalid
        } else if b[4] == 1 {
            Kind::Transaction
        } else if b[4] == 2 {
            Kind::Signature
        } else {
            Kind::Subscribe
        };
        let state = if b[5] == 0 {
            State::Unknown
        } else if b[5] == 1 {
            State::Withdrawn
        } else {
            State::Deposited
        };
        let m = Message {
            version: version as u32,
            kind,
            state,
            unused: unused as u16,
            data: MessageData { bytes: read_152(b, 8) },
        };
        proof {
            assert(message_layout(m, b@));
            lemma_message_layout_unique(m, decode_message(b@).unwrap(), b@);
        }
        Some(m)
    }
}

// ----- defaults -----

impl Default for Transaction {
    fn default() -> (r: Transaction)
        ensures
            r.lvh@ == zeros(32),
            r.from@ == zeros(32),
            r.to@ == zeros(32),
            r.lvh_count == 0,
            r.amount == 0,
            r.fee == 0,
            r.signature@ == zeros(32),
    {
        let r = Transaction {
            lvh: [0u8; 32],
            from: [0u8; 32],
            to: [0u8; 32],
            lvh_count: 0,
            amount: 0,
            fee: 0,
            signature: [0u8; 32],
        };
        proof {
            assert(r.lvh@ =~= zeros(32));
        }
        r
    }
}

impl Default for MessageData {
    /// A payload of zeros: the default transaction.
    fn default() -> (r: MessageData)
        ensures
            r.bytes@ == zeros(152),
    {
        let r = MessageData { bytes: [0u8; 152] };
        proof {
            assert(r.bytes@ =~= zeros(152));
        }
        r
    }
}

impl Default for Kind {
    fn default() -> (r: Kind)
        ensures
            r == Kind::Invalid,
    {
        Kind::Invalid
    }
}

impl Default for State {
    fn default() -> (r: State)
        ensures
            r == State::Unknown,
    {
        State::Unknown
    }
}

impl Default for Message {
    fn default() -> (r: Message)
        ensures
            r.version == 0,
            r.kind == Kind::Invalid,
            r.state == State::Unknown,
            r.unused == 0,
            r.data.bytes@ == zeros(152),
    {
        Message {
            version: 0,
            kind: Kind::Invalid,
            state: State::Unknown,
            unused: 0,
            data: MessageData::default(),
        }
    }
}

/// The all-zero key, which marks a free slot.
pub open spec fn zero_key() -> [u8; 32] {
    vstd::array::spec_array_fill_for_copy_type::<u8, 32>(0u8)
}

/// The account in a free slot: zero key, zero balance.
pub open spec fn empty_account() -> Account {
    Account { from: zero_key(), balance: 0 }
}

pub proof fn lemma_zero_key()
    ensures
        zero_key()@ == zeros(32),
        zero_key().unused_spec(),
        forall|k: [u8; 32]| k.unused_spec() <==> k == zero_key(),
{
    assert(zero_key()@ =~= zeros(32));
    assert forall|k: [u8; 32]| k.unused_spec() <==> k == zero_key() by {
        if k.unused_spec() {
            assert(k =~= zero_key());
        }
    }
}

impl Default for Account {
    fn default() -> (r: Account)
        ensures
            r == empty_account(),
    {
        let r = Account { from: [0u8; 32], balance: 0 };
        proof {
            lemma_zero_key();
            assert(r.from =~= zero_key());
        }
        r
    }
}

// ----- keys -----

/// A 32-byte public key: probing starts at the number its first 8 bytes spell, most
/// significant first; the all-zero key marks a free slot.
impl Key for [u8; 32] {
    open spec fn start_spec(&self) -> usize {
        (be_value(self@.subrange(0, 8)) as u64) as usize
    }

    open spec fn unused_spec(&self) -> bool {
        self@ == zeros(32)
    }

    fn start(&self) -> (r: usize) {
        let st = read_be(self, 0, 8);
        st as usize
    }

    fn unused(&self) -> (r: bool) {
        let mut i: usize = 0;
        while i < 32
            invariant
                i <= 32,
                forall|j: int| 0 <= j < i ==> self@[j] == 0,
            decreases 32 - i,
        {
            if self[i] != 0 {
                proof {
                    assert(self@[i as int] != zeros(32)[i as int]);
                }
                return false;
            }
            i += 1;
        }
        proof {
            assert(self@ =~= zeros(32));
        }
        true
    }

    fn same(&self, other: &Self) -> (r: bool) {
        let mut i: usize = 0;
        while i < 32
            invariant
                i <= 32,
                forall|j: int| 0 <= j < i ==> self@[j] == other@[j],
            decreases 32 - i,
        {
            if self[i] != other[i] {
                proof {
                    assert(self@[i as int] != other@[i as int]);
                }
                return false;
            }
            i += 1;
        }
        proof {
            assert(*self =~= *other);
        }
        true
    }
}

impl Val<[u8; 32]> for Account {
    open spec fn key_spec(&self) -> [u8; 32] {
        self.from
    }

    fn key(&self) -> (r: &[u8; 32]) {
        &self.from
    }
}

/// Bytes 4 and 5 of a message are the numbers of its kind and state in the order the
/// `repr(u8)` enums declare them: kinds `Invalid` 0, `Transaction` 1, `Signature` 2,
/// `Subscribe` 3; states `Unknown` 0, `Withdrawn` 1, `Deposited` 2.
pub proof fn lemma_kind_and_state_bytes(m: Message)
    ensures
        message_bytes(m).len() == 160,
        m.kind == Kind::Invalid ==> message_bytes(m)[4] == 0,
        m.kind == Kind::Transaction ==> message_bytes(m)[4] == 1,
        m.kind == Kind::Signature ==> message_bytes(m)[4] == 2,
        m.kind == Kind::Subscribe ==> message_bytes(m)[4] == 3,
        m.state == State::Unknown ==> message_bytes(m)[5] == 0,
        m.state == State::Withdrawn ==> message_bytes(m)[5] == 1,
        m.state == State::Deposited ==> message_bytes(m)[5] == 2,
{
    lemma_le_bytes_len(m.version as nat, 4);
    lemma_le_bytes_len(m.unused as nat, 2);
}

/// Reading bytes back, byte 4 names the kind and byte 5 the state by the same
/// numbers: kinds `Invalid` 0, `Transaction` 1, `Signature` 2, `Subscribe` 3; states
/// `Unknown` 0, `Withdrawn` 1, `Deposited` 2. Any other number reads as no message.
pub proof fn lemma_decoded_kind_and_state(b: Seq<u8>)
    requires
        b.len() == 160,
    ensures
        decode_message(b) is Some <==> b[4] < 4 && b[5] < 3,
        decode_message(b) matches Some(m) ==> {
            &&& (b[4] == 0 ==> m.kind == Kind::Invalid)
            &&& (b[4] == 1 ==> m.kind == Kind::Transaction)
            &&& (b[4] == 2 ==> m.kind == Kind::Signature)
            &&& (b[4] == 3 ==> m.kind == Kind::Subscribe)
            &&& (b[5] == 0 ==> m.state == State::Unknown)
            &&& (b[5] == 1 ==> m.state == State::Withdrawn)
            &&& (b[5] == 2 ==> m.state == State::Deposited)
        },
{
    if valid_message_bytes(b) {
        lemma_message_exists(b);
    }
}

/// The numbers of a message are laid out little-endian, as on the machines the C
/// layout comes from: bytes 0 to 3 hold the version, lowest byte first, bytes 6 and 7
/// the spare field, and bytes 8 to 160 the payload as it stands.
pub proof fn lemma_message_number_bytes(m: Message)
    ensures
        message_bytes(m)[0] == m.version % 256,
        message_bytes(m)[1] == (m.version / 256) % 256,
        message_bytes(m)[2] == (m.version / 65536) % 256,
        message_bytes(m)[3] == (m.version / 16777216) % 256,
        message_bytes(m)[6] == m.unused % 256,
        message_bytes(m)[7] == m.unused / 256,
        message_bytes(m).subrange(8, 160) == m.data.bytes@,
{
    let v = m.version as nat;
    let u = m.unused as nat;
    reveal_with_fuel(le_bytes, 5);
    lemma_le_bytes_len(v, 4);
    lemma_le_bytes_len(u, 2);
    vstd::arithmetic::div_mod::lemma_div_denominator(v as int, 256, 256);
    vstd::arithmetic::div_mod::lemma_div_denominator(v as int, 65536, 256);
    assert(v / 256 / 256 == v / 65536);
    assert(v / 65536 / 256 == v / 16777216);
    assert(u / 256 < 256);
    let b = message_bytes(m);
    assert(b.subrange(8, 160) =~= m.data.bytes@);
}

} // verus!
