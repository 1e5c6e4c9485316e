use loom::data::{Kind, Message, MessageData, State, Subscriber, Transaction, POH, MESSAGE_SIZE};

fn sample_tx() -> Transaction {
    let mut tx = Transaction::default();
    tx.lvh = [1u8; 32];
    tx.from = [2u8; 32];
    tx.to = [3u8; 32];
    tx.lvh_count = 0x0102030405060708;
    tx.amount = 500;
    tx.fee = 7;
    tx.signature = [9u8; 32];
    tx
}

#[test]
fn transaction_payload_layout() {
    let d = MessageData::from_tx(sample_tx());
    assert_eq!(&d.bytes[0..32], &[1u8; 32]);
    assert_eq!(&d.bytes[32..64], &[2u8; 32]);
    assert_eq!(&d.bytes[64..96], &[3u8; 32]);
    assert_eq!(&d.bytes[96..104], &[8, 7, 6, 5, 4, 3, 2, 1]);
    assert_eq!(&d.bytes[104..112], &[0xf4, 1, 0, 0, 0, 0, 0, 0]);
    assert_eq!(&d.bytes[112..120], &[7, 0, 0, 0, 0, 0, 0, 0]);
    assert_eq!(&d.bytes[120..152], &[9u8; 32]);
    let t = d.tx();
    assert_eq!(t.lvh_count, 0x0102030405060708);
    assert_eq!(t.amount, 500);
    assert_eq!(t.fee, 7);
    assert_eq!(t.from, [2u8; 32]);
}

#[test]
fn payload_read_three_ways() {
    let d = MessageData::from_tx(sample_tx());
    // a proof-of-history reading shares the first 40 bytes
    let p = d.poh();
    assert_eq!(p.hash, [1u8; 32]);
    assert_eq!(p.counter, 0x0202020202020202);
    let s = d.sub();
    assert_eq!(s.key, [1u8; 32]);
    assert_eq!(s.addr, [2u8; 4]);
    assert_eq!(s.port, 0x0202);
}

#[test]
fn poh_and_subscriber_roundtrip() {
    let p = POH { hash: [4u8; 32], counter: 99 };
    let d = MessageData::from_poh(p);
    assert_eq!(d.poh().counter, 99);
    assert_eq!(d.poh().hash, [4u8; 32]);
    assert!(d.bytes[40..].iter().all(|b| *b == 0));
    let s = Subscriber { key: [5u8; 32], addr: [127, 0, 0, 1], port: 12345 };
    let d = MessageData::from_sub(s);
    let s2 = d.sub();
    assert_eq!(s2.key, [5u8; 32]);
    assert_eq!(s2.addr, [127, 0, 0, 1]);
    assert_eq!(s2.port, 12345);
    assert_eq!(&d.bytes[36..38], &[0x39, 0x30]);
}

#[test]
fn message_bytes_roundtrip() {
    let mut m = Message::default();
    m.version = 0x01020304;
    m.kind = Kind::Subscribe;
    m.state = State::Withdrawn;
    m.unused = 0xabcd;
    m.data = MessageData::from_tx(sample_tx());
    let b = m.to_bytes();
    assert_eq!(b.len(), MESSAGE_SIZE);
    assert_eq!(&b[0..8], &[4, 3, 2, 1, 3, 1, 0xcd, 0xab]);
    let m2 = Message::from_bytes(&b).expect("decode");
    assert_eq!(m2.version, m.version);
    assert_eq!(m2.kind, Kind::Subscribe);
    assert_eq!(m2.state, State::Withdrawn);
    assert_eq!(m2.unused, 0xabcd);
    assert_eq!(m2.data.bytes, m.data.bytes);
    assert_eq!(m2.to_bytes(), b);
}

#[test]
fn message_from_bad_bytes() {
    let m = Message::default();
    let mut b = m.to_bytes();
    assert!(Message::from_bytes(&b[0..159]).is_none());
    b[4] = 4;
    assert!(Message::from_bytes(&b).is_none());
    b[4] = 0;
    b[5] = 3;
    assert!(Message::from_bytes(&b).is_none());
    b[5] = 2;
    assert_eq!(Message::from_bytes(&b).expect("decode").state, State::Deposited);
}

#[test]
fn defaults_are_zero() {
    let m = Message::default();
    assert_eq!(m.kind, Kind::Invalid);
    assert_eq!(m.state, State::Unknown);
    assert!(m.to_bytes().iter().all(|b| *b == 0));
    assert_eq!(Kind::default(), Kind::Invalid);
    assert_eq!(State::default(), State::Unknown);
}
