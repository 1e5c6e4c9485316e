use loom::data::{Kind, Message, MessageData, Subscriber, POH};
use loom::gossip::{Gossip, Subscriber as Entry};
use loom::hasht::HashT;

type SubT = HashT<[u8; 32], Entry>;
use loom::result::LoomError;

fn key(b: u8) -> [u8; 32] {
    let mut k = [0u8; 32];
    k[7] = b;
    k
}

fn subscribe(k: [u8; 32], port: u16) -> Message {
    let mut m = Message::default();
    m.kind = Kind::Subscribe;
    m.data = MessageData::from_sub(Subscriber { key: k, addr: [10, 0, 0, 1], port });
    m
}

fn tick(counter: u64) -> Message {
    let mut m = Message::default();
    m.kind = Kind::Signature;
    m.data = MessageData::from_poh(POH { hash: [0u8; 32], counter });
    m
}

#[test]
fn gossip_new_is_blank() {
    let g = Gossip::new(8);
    assert_eq!(g.subs.len(), 8);
    assert_eq!(g.now(), 0);
    assert_eq!(g.used(), 0);
}

#[test]
fn subscriber_stamped_with_counter() {
    let mut g = Gossip::new(4);
    let mut msgs = [tick(42), subscribe(key(1), 8000), tick(43)];
    g.execute(&mut msgs).expect("execute");
    assert_eq!(g.now(), 43);
    assert_eq!(g.subs[1].key, key(1));
    assert_eq!(g.subs[1].addr, [10, 0, 0, 1]);
    assert_eq!(g.subs[1].port, 8000);
    assert_eq!(g.subs[1].lastping, 42);
    assert_eq!(g.used(), 1);
}

#[test]
fn resubscribe_updates_in_place() {
    let mut g = Gossip::new(4);
    let mut msgs = [subscribe(key(2), 1), tick(5), subscribe(key(2), 2)];
    g.execute(&mut msgs).expect("execute");
    assert_eq!(g.subs[2].port, 2);
    assert_eq!(g.subs[2].lastping, 5);
    assert_eq!(g.used(), 1);
}

#[test]
fn gossip_doubles() {
    let mut g = Gossip::new(2);
    let mut msgs = [subscribe(key(1), 1), subscribe(key(2), 2)];
    g.execute(&mut msgs).expect("execute");
    // one subscriber: 4/3 = 1 is not above 2; two: 8/3 = 2 is not above 2
    assert_eq!(g.subs.len(), 2);
    let mut g = Gossip::new(3);
    let mut msgs = [subscribe(key(0x10), 1), subscribe(key(0x11), 2), subscribe(key(0x12), 3)];
    g.execute(&mut msgs).expect("execute");
    // three subscribers: 12/3 = 4 is above 3, so the table doubles to 6
    assert_eq!(g.subs.len(), 6);
    assert_eq!(g.used(), 3);
}

#[test]
fn gossip_no_space() {
    let mut g = Gossip::new(0);
    let mut msgs = [subscribe(key(1), 1)];
    assert_eq!(g.execute(&mut msgs).unwrap_err(), LoomError::NoSpace);
}

#[test]
fn gossip_would_not_abort() {
    let g = Gossip::new(4);
    assert!(!g.would_abort(&subscribe(key(1), 1)));
    assert!(!g.would_abort(&tick(3)));
}

#[test]
fn resubscribing_after_a_doubling_adds_a_second_entry() {
    // key 3 sits in slot 0 of the 3-slot table; after the table doubles, its lookup
    // starts at slot 3 and stores it again there
    let mut g = Gossip::new(3);
    let mut msgs = [
        subscribe(key(1), 1),
        subscribe(key(2), 2),
        subscribe(key(3), 3),
        subscribe(key(3), 3),
        subscribe(key(4), 4),
        subscribe(key(5), 5),
    ];
    g.execute(&mut msgs).expect("execute");
    assert_eq!(g.used(), 6);
    assert_eq!(g.subscribers().len(), 12);
    let occupied = g.subscribers().iter().filter(|s| s.key != [0u8; 32]).count();
    assert_eq!(occupied, 5);
}

fn used_slots(g: &Gossip) -> usize {
    g.subscribers().iter().filter(|s| s.key != [0u8; 32]).count()
}

#[test]
fn used_count_matches_used_slots_when_nothing_merges() {
    let mut g = Gossip::new(3);
    let mut msgs = [
        subscribe(key(0x10), 1),
        subscribe(key(0x11), 2),
        subscribe(key(0x12), 3),
        // 0x13 starts at slot 1 of 6 and takes slot 3
        subscribe(key(0x13), 4),
    ];
    g.execute(&mut msgs).expect("execute");
    assert_eq!(g.subscribers().len(), 6);
    assert_eq!(g.used(), 4);
    assert_eq!(used_slots(&g), 4);
    assert_eq!(g.subscribers()[3].key, key(0x13));
}

#[test]
fn subscribers_are_found_where_they_sit_until_the_table_grows() {
    let mut g = Gossip::new(8);
    let mut msgs = [subscribe(key(1), 1), subscribe(key(9), 2), subscribe(key(2), 3), subscribe(key(9), 4)];
    g.execute(&mut msgs).expect("execute");
    assert_eq!(g.subscribers().len(), 8);
    assert_eq!(g.used(), 3);
    for (i, s) in g.subscribers().iter().enumerate() {
        if s.key != [0u8; 32] {
            assert_eq!(SubT::find(g.subscribers(), &s.key).unwrap(), i);
        }
    }
}
