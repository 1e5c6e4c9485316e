use loom::data::{Kind, Message, MAX_PACKET, MESSAGE_SIZE};
use loom::net::{
    batch_total, decode_messages, encode_messages, messages_received, packet_fits, read_from_next, read_from_start,
    send_size, ReadFromNext, ReadFromStart, Received,
};

#[test]
fn messages_roundtrip_through_bytes() {
    let mut ms = [Message::default(); 3];
    ms[1].kind = Kind::Transaction;
    ms[2].version = 9;
    let b = encode_messages(&ms);
    assert_eq!(b.len(), 3 * MESSAGE_SIZE);
    let back = decode_messages(&b).expect("decode");
    assert_eq!(back.len(), 3);
    assert_eq!(back[1].kind, Kind::Transaction);
    assert_eq!(back[2].version, 9);
    assert_eq!(encode_messages(&back), b);
}

#[test]
fn partial_message_is_left_out() {
    let ms = [Message::default(); 2];
    let b = encode_messages(&ms);
    assert_eq!(decode_messages(&b[0..250]).expect("decode").len(), 1);
    let mut bad = b.clone();
    bad[MESSAGE_SIZE + 4] = 9;
    assert!(decode_messages(&bad).is_none());
}

#[test]
fn packet_sizes() {
    assert_eq!(MAX_PACKET / MESSAGE_SIZE, 25);
    assert_eq!(send_size(100, 0), 25 * 160);
    assert_eq!(send_size(26, 25), 160);
    assert_eq!(send_size(3, 1), 320);
    assert!(packet_fits(26, 0));
    assert!(!packet_fits(25, 0));
    assert!(!packet_fits(26, 1));
    assert_eq!(messages_received(4000), 25);
    assert_eq!(messages_received(4095), 25);
    assert_eq!(messages_received(159), 0);
}

#[test]
fn read_from_steps() {
    assert_eq!(read_from_start(1024, 0, 0), ReadFromStart::Receive);
    assert_eq!(read_from_start(1024, 1000, 3), ReadFromStart::Finish(3));
    assert_eq!(read_from_start(10, 10, 2), ReadFromStart::Finish(2));
    assert_eq!(
        read_from_next(5, 1, Received::Packet(4000)),
        ReadFromNext::Store { count: 25, total: 30, ix: 2 }
    );
    assert_eq!(read_from_next(5, 1, Received::Failed), ReadFromNext::Finish(1));
    assert_eq!(read_from_next(0, 0, Received::Failed), ReadFromNext::Fail);
}

#[test]
fn batch_totals() {
    assert_eq!(batch_total(&[25, 25, 3]), Some(53));
    assert_eq!(batch_total(&[]), Some(0));
    assert_eq!(batch_total(&[usize::MAX, 1]), None);
}
