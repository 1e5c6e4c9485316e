//! Starting a loom from a list of test accounts.
use crate::codec::read_32;
use crate::data::Account;
use crate::result::Result;
use crate::state::{from_list_run, blank_table, State};
use crate::wallet::{words_bytes, words_to_bytes};
use vstd::prelude::*;

verus! {

/// A test account: a public key as four little-endian words, and a balance.
#[derive(Copy, Clone)]
pub struct TestAccount {
    pub pubkey: [u64; 4],
    pub balance: u32,
}

/// The account a test account stands for: its key laid out as 32 bytes, as a
/// transmute on a little-endian machine does.
pub fn test_account(a: &TestAccount) -> (r: Account)
    ensures
        r.from@ == words_bytes(a.pubkey@),
        r.balance == a.balance,
{
    let b = words_to_bytes(&a.pubkey);
    Account { from: read_32(b.as_slice(), 0), balance: a.balance as u64 }
}

/// The accounts that the test accounts stand for, in order.
pub open spec fn test_accounts_spec(v: Seq<TestAccount>, accts: Seq<Account>) -> bool {
    &&& accts.len() == v.len()
    &&& forall|i: int|
        0 <= i < v.len() ==> (#[trigger] accts[i]).from@ == words_bytes(v[i].pubkey@) && accts[i].balance
            == v[i].balance
}

/// A state loaded from test accounts: `State::from_list` of the accounts they stand
/// for.
pub fn state_from_test_accounts(v: &[TestAccount]) -> (r: Result<State>)
    requires
        v@.len() * 2 <= usize::MAX,
    ensures
        exists|accts: Seq<Account>|
            test_accounts_spec(v@, accts) && match #[trigger] from_list_run(
                blank_table(2 * accts.len()),
                accts,
                accts.len() as int,
            ) {
                Some(t) => r matches Ok(s) && s@.accounts == t && s@.used == 0,
                None => r matches Err(e) && e is NoSpace,
            },
{
    let mut accts: Vec<Account> = Vec::new();
    let mut i: usize = 0;
    while i < v.len()
        invariant
            i <= v@.len(),
            test_accounts_spec(v@.subrange(0, i as int), accts@),
        decreases v@.len() - i,
    {
        let a = test_account(&v[i]);
        accts.push(a);
        i += 1;
    }
    proof {
        assert(v@.subrange(0, v@.len() as int) =~= v@);
    }
    State::from_list(accts.as_slice())
}

} // verus!
