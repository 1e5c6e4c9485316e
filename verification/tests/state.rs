use loom::data::{Account, AccountT, Kind, Message, MessageData, State as TxState, Transaction};
use loom::hasht::Key;
use loom::result::LoomError;
use loom::state::State;

#[test]
fn state_test() {
    let mut s: State = State::new(64);
    let mut msgs: [Message; 0] = [];
    s.execute(&mut msgs).expect("e");
}

fn key(b: u8) -> [u8; 32] {
    let mut k = [0u8; 32];
    k[7] = b;
    k
}

fn transfer(from: [u8; 32], to: [u8; 32], amount: u64, fee: u64) -> Message {
    let mut tx = Transaction::default();
    tx.from = from;
    tx.to = to;
    tx.amount = amount;
    tx.fee = fee;
    let mut m = Message::default();
    m.kind = Kind::Transaction;
    m.data = MessageData::from_tx(tx);
    m
}

#[test]
fn new_state_is_blank() {
    let s = State::new(4);
    assert_eq!(s.accounts().len(), 4);
    assert!(s.accounts().iter().all(|a| a.from == [0u8; 32] && a.balance == 0));
    assert_eq!(s.used(), 0);
}

#[test]
fn from_list_sets_balances_but_not_keys() {
    let v = [Account { from: key(2), balance: 100 }, Account { from: key(5), balance: 7 }];
    let s = State::from_list(&v).expect("from_list");
    assert_eq!(s.accounts().len(), 4);
    // key 2 starts at slot 2, key 5 at slot 1 (5 mod 4); no key is written
    assert_eq!(s.accounts()[2].balance, 100);
    assert_eq!(s.accounts()[1].balance, 7);
    assert!(s.accounts().iter().all(|a| a.from.unused()));
    assert_eq!(s.used(), 0);
}

#[test]
fn from_list_same_slot_overwrites() {
    let v = [Account { from: key(1), balance: 10 }, Account { from: key(5), balance: 20 }];
    let s = State::from_list(&v).expect("from_list");
    // both keys start at slot 1 of 4, and the slot stays free for the second
    assert_eq!(s.accounts()[1].balance, 20);
}

#[test]
fn empty_from_list_is_empty_state() {
    let s = State::from_list(&[]).expect("from_list");
    assert_eq!(s.accounts().len(), 0);
}

#[test]
fn transfer_from_zero_key_creates_account() {
    // the balance set for key 4 lands in slot 0 of 2, which the zero key looks up
    let s0 = [Account { from: key(4), balance: 50 }];
    let mut s = State::from_list(&s0).expect("from_list");
    assert_eq!(s.accounts()[0].balance, 50);
    let mut msgs = [transfer([0u8; 32], key(1), 30, 5)];
    s.execute(&mut msgs).expect("execute");
    assert_eq!(msgs[0].state, TxState::Deposited);
    assert_eq!(s.accounts()[0].balance, 15);
    assert_eq!(s.accounts()[1].from, key(1));
    assert_eq!(s.accounts()[1].balance, 30);
    assert_eq!(s.used(), 1);
    // total went down by the fee only
    let total: u64 = s.accounts().iter().map(|a| a.balance).sum();
    assert_eq!(total, 45);
}

#[test]
fn transfer_without_funds_changes_nothing() {
    let s0 = [Account { from: key(4), balance: 10 }];
    let mut s = State::from_list(&s0).expect("from_list");
    let mut msgs = [transfer([0u8; 32], key(1), 30, 5)];
    s.execute(&mut msgs).expect("execute");
    assert_eq!(msgs[0].state, TxState::Unknown);
    assert_eq!(s.accounts()[0].balance, 10);
    assert!(s.accounts()[1].from.unused());
    assert_eq!(s.used(), 0);
}

#[test]
fn non_transaction_messages_are_skipped() {
    let mut s = State::new(2);
    let mut m = transfer([0u8; 32], key(1), 0, 0);
    m.kind = Kind::Signature;
    let mut msgs = [m];
    s.execute(&mut msgs).expect("execute");
    assert_eq!(msgs[0].state, TxState::Unknown);
    assert_eq!(s.used(), 0);
}

#[test]
fn execute_reports_no_space() {
    let mut s = State::new(0);
    let mut msgs = [transfer([0u8; 32], key(1), 0, 0)];
    assert_eq!(s.execute(&mut msgs).unwrap_err(), LoomError::NoSpace);
}

#[test]
fn table_doubles_when_three_quarters_full() {
    let s0 = [Account { from: key(4), balance: 100 }, Account { from: key(9), balance: 0 }];
    let mut s = State::from_list(&s0).expect("from_list");
    assert_eq!(s.accounts()[0].balance, 100);
    let mut msgs = [
        transfer([0u8; 32], key(2), 10, 0),
        transfer([0u8; 32], key(3), 10, 0),
        transfer([0u8; 32], key(5), 10, 0),
        // key 6 probes slots 2, 3 and 0: the sender's own free slot
        transfer([0u8; 32], key(6), 10, 0),
    ];
    s.execute(&mut msgs).expect("execute");
    assert!(msgs.iter().all(|m| m.state == TxState::Deposited));
    assert_eq!(s.used(), 4);
    assert_eq!(s.accounts().len(), 8);
    let keys: Vec<[u8; 32]> = s.accounts().iter().map(|a| a.from).collect();
    let balances: Vec<u64> = s.accounts().iter().map(|a| a.balance).collect();
    assert_eq!(keys, vec![key(6), key(5), key(2), key(3), [0u8; 32], [0u8; 32], [0u8; 32], [0u8; 32]]);
    assert_eq!(balances, vec![70, 10, 10, 10, 0, 0, 0, 0]);
}

#[test]
fn would_abort_on_overflow_and_zero_key_deposit() {
    let s0 = [Account { from: key(4), balance: 50 }];
    let s = State::from_list(&s0).expect("from_list");
    assert!(!s.would_abort(&transfer([0u8; 32], key(1), 30, 5)));
    assert!(s.would_abort(&transfer([0u8; 32], key(1), u64::MAX, 1)));
    // the sender's free slot is also where the zero key would be deposited
    assert!(s.would_abort(&transfer([0u8; 32], [0u8; 32], 10, 0)));
    // without funds nothing is deposited, so nothing aborts
    assert!(!s.would_abort(&transfer([0u8; 32], [0u8; 32], 100, 0)));
    // a key with no slot stops the run with an error instead
    assert!(!State::new(0).would_abort(&transfer([0u8; 32], key(1), 1, 0)));
}

fn occupied(s: &State) -> usize {
    s.accounts().iter().filter(|a| a.from != [0u8; 32]).count()
}

fn total(s: &State) -> u64 {
    s.accounts().iter().map(|a| a.balance).sum()
}

// All the money sits in the zero key's slot and is moved to key 1 first, so free
// slots hold nothing from then on.
fn funded_batch() -> (State, Vec<Message>) {
    let s0 = [Account { from: key(4), balance: 100 }, Account { from: key(9), balance: 0 }];
    let s = State::from_list(&s0).expect("from_list");
    let msgs = vec![
        transfer([0u8; 32], key(1), 100, 0),
        transfer(key(1), key(2), 10, 1),
        transfer(key(1), key(3), 10, 1),
        // key 5 probes slots 1, 2, 3 and takes slot 0; the fourth account doubles the table
        transfer(key(1), key(5), 10, 1),
        transfer(key(1), key(6), 5, 1),
    ];
    (s, msgs)
}

#[test]
fn used_count_matches_occupied_slots_across_a_doubling() {
    let (mut s, mut msgs) = funded_batch();
    s.execute(&mut msgs).expect("execute");
    assert_eq!(s.accounts().len(), 8);
    assert_eq!(s.used(), 5);
    assert_eq!(occupied(&s), 5);
}

#[test]
fn money_drops_only_by_fees_across_a_doubling() {
    let (mut s, mut msgs) = funded_batch();
    assert_eq!(total(&s), 100);
    s.execute(&mut msgs).expect("execute");
    assert!(msgs.iter().all(|m| m.state == TxState::Deposited));
    assert_eq!(total(&s), 100 - 4);
    assert!(s.accounts().iter().all(|a| a.from != [0u8; 32] || a.balance == 0));
    let keys: Vec<[u8; 32]> = s.accounts().iter().map(|a| a.from).collect();
    let balances: Vec<u64> = s.accounts().iter().map(|a| a.balance).collect();
    assert_eq!(keys, vec![key(5), key(1), key(2), key(3), [0u8; 32], [0u8; 32], key(6), [0u8; 32]]);
    assert_eq!(balances, vec![10, 61, 10, 10, 0, 0, 5, 0]);
}

#[test]
fn accounts_are_found_where_they_sit_until_the_table_grows() {
    let (mut s, msgs) = funded_batch();
    let mut first = [msgs[0], msgs[1], msgs[2]];
    s.execute(&mut first).expect("execute");
    assert_eq!(s.accounts().len(), 4);
    for (i, a) in s.accounts().iter().enumerate() {
        if a.from != [0u8; 32] {
            assert_eq!(AccountT::find(s.accounts(), &a.from).unwrap(), i);
        }
    }
}
