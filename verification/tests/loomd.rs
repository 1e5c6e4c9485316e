use loom::loomd::{state_from_test_accounts, test_account, TestAccount};

#[test]
fn test_account_key_is_little_endian_words() {
    let a = TestAccount { pubkey: [0x0102, 0, 0, 0xff00000000000000], balance: 77 };
    let acc = test_account(&a);
    assert_eq!(acc.from[0], 2);
    assert_eq!(acc.from[1], 1);
    assert_eq!(acc.from[31], 0xff);
    assert_eq!(acc.balance, 77);
}

#[test]
fn state_from_test_accounts_sets_balances() {
    // key bytes 0..8 big-endian give the start: 0x0100.. for word 1
    let v = [TestAccount { pubkey: [1, 0, 0, 0], balance: 5 }];
    let s = state_from_test_accounts(&v).expect("state");
    assert_eq!(s.accounts().len(), 2);
    // start = 0x0100_0000_0000_0000, even, so slot 0
    assert_eq!(s.accounts()[0].balance, 5);
    assert_eq!(s.accounts()[1].balance, 0);
}
