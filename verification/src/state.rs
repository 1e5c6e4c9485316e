//! State machine for transactions: an open-addressed table of accounts that
//! transaction messages move balances through, doubled when it fills up.
use crate::data::{empty_account, lemma_zero_key, zero_key, Account, AccountT, Kind, Message, State as TxState};
use crate::hasht::{
    doubled, find_slot, keys_match, lemma_count_used_update, lemma_keys_match, lemma_migrate_count_used,
    lemma_migrate_len, lemma_migrate_stays_failed, lemma_probe_from_in_range, lemma_probe_range,
    lemma_store_keeps_well_placed, lemma_well_placed_no_merge, lemma_writes_below_len, migrate_run, no_merge, probe, takes, used_slots,
    well_placed, Key, Val,
};
use crate::result::{is_no_space, LoomError, Result};
use vstd::prelude::*;

verus! {

pub struct State {
    accounts: Vec<Account>,
    used: usize,
}

/// A state as the table of accounts and the count of accounts it has created.
pub struct StateView {
    pub accounts: Seq<Account>,
    pub used: nat,
}

impl View for State {
    type V = StateView;

    closed spec fn view(&self) -> StateView {
        StateView { accounts: self.accounts@, used: self.used as nat }
    }
}

/// `m` with its state set to `st`.
pub open spec fn with_state(m: Message, st: TxState) -> Message {
    Message { state: st, ..m }
}

/// `a` with its balance set to `b`.
pub open spec fn with_balance(a: Account, b: u64) -> Account {
    Account { balance: b, ..a }
}

/// A table of `n` free slots.
pub open spec fn blank_table(n: nat) -> Seq<Account> {
    Seq::new(n, |i: int| empty_account())
}

/// What one message does to the table of accounts.
pub enum Step {
    /// The message went through: the new table, the message with its new state, and
    /// how many accounts it created.
    Applied(Seq<Account>, Message, nat),
    /// A key found no slot.
    NoSpace,
    /// The transfer overflowed a balance, or deposited to the zero key.
    Panic,
}

/// One message against the table. Anything but a transaction leaves all alone. A
/// transaction looks up the slots of its `from` and `to` keys; unless `from`'s slot
/// holds `from` and `to`'s slot is free or holds `to`, nothing changes. The sender is
/// charged `amount + fee` if it can pay, which marks the message `Withdrawn`; a
/// message marked `Withdrawn` then credits `amount` to `to`'s slot, claims the slot
/// for `to` if it was free (counting one new account), and is marked `Deposited`.
pub open spec fn exec_spec(accts: Seq<Account>, m: Message) -> Step {
    if m.kind != Kind::Transaction {
        Step::Applied(accts, m, 0)
    } else {
        let tx = m.tx_spec();
        match (find_slot(accts, tx.from), find_slot(accts, tx.to)) {
            (Some(sf), Some(st)) => {
                let from = accts[sf as int];
                let to = accts[st as int];
                if from.from != tx.from {
                    Step::Applied(accts, m, 0)
                } else if !to.from.unused_spec() && to.from != tx.to {
                    Step::Applied(accts, m, 0)
                } else if tx.amount + tx.fee > u64::MAX {
                    Step::Panic
                } else {
                    let combined = tx.amount + tx.fee;
                    let a1 = if from.balance >= combined {
                        accts.update(sf as int, with_balance(from, (from.balance - combined) as u64))
                    } else {
                        accts
                    };
                    let m1 = if from.balance >= combined {
                        with_state(m, TxState::Withdrawn)
                    } else {
                        m
                    };
                    if m1.state != TxState::Withdrawn {
                        Step::Applied(a1, m1, 0)
                    } else {
                        let to1 = a1[st as int];
                        if to1.balance + tx.amount > u64::MAX {
                            Step::Panic
                        } else if to1.from.unused_spec() && tx.to.unused_spec() {
                            Step::Panic
                        } else {
                            let to2 = Account {
                                from: if to1.from.unused_spec() { tx.to } else { to1.from },
                                balance: (to1.balance + tx.amount) as u64,
                            };
                            Step::Applied(
                                a1.update(st as int, to2),
                                with_state(m1, TxState::Deposited),
                                if to1.from.unused_spec() { 1 } else { 0 },
                            )
                        }
                    }
                }
            },
            _ => Step::NoSpace,
        }
    }
}

/// Where a run of `execute` ends.
pub enum Run {
    /// The table, the count of created accounts and the messages at the end, and
    /// whether the run went through all of them.
    Done { accounts: Seq<Account>, used: nat, msgs: Seq<Message>, ok: bool },
    /// An arithmetic overflow or a failed assertion.
    Panic,
}

/// The first `k` messages run one by one. After each message the count of created
/// accounts grows by what it created, and when four thirds of it exceed the table
/// size the table is doubled: its items are migrated into a blank table twice the
/// size. A message whose keys find no slot, or a doubling that fails, stops the run.
pub open spec fn execute_run(accts: Seq<Account>, used: nat, msgs: Seq<Message>, k: int) -> Run
    decreases k,
{
    if k <= 0 {
        Run::Done { accounts: accts, used, msgs, ok: true }
    } else {
        match execute_run(accts, used, msgs, k - 1) {
            Run::Panic => Run::Panic,
            Run::Done { accounts: a, used: u, msgs: ms, ok } => {
                if !ok {
                    Run::Done { accounts: a, used: u, msgs: ms, ok: false }
                } else {
                    match exec_spec(a, ms[k - 1]) {
                        Step::Panic => Run::Panic,
                        Step::NoSpace => Run::Done { accounts: a, used: u, msgs: ms, ok: false },
                        Step::Applied(a2, m2, new) => {
                            let ms2 = ms.update(k - 1, m2);
                            let u2 = new + u;
                            if u2 > usize::MAX || 4 * u2 > usize::MAX {
                                Run::Panic
                            } else if (4 * u2) / 3 > a2.len() {
                                if 2 * a2.len() > usize::MAX {
                                    Run::Panic
                                } else {
                                    let (d, good) = migrate_run(
                                        a2,
                                        blank_table(2 * a2.len()),
                                        a2.len() as int,
                                    );
                                    if good {
                                        Run::Done { accounts: d, used: u2, msgs: ms2, ok: true }
                                    } else {
                                        Run::Done { accounts: a2, used: u2, msgs: ms2, ok: false }
                                    }
                                }
                            } else {
                                Run::Done { accounts: a2, used: u2, msgs: ms2, ok: true }
                            }
                        },
                    }
                }
            },
        }
    }
}

/// The table after the balances of `v` are set one by one in the slots their keys
/// look up; the keys themselves are not written. `None` when a lookup fails.
pub open spec fn from_list_run(tbl: Seq<Account>, v: Seq<Account>, k: int) -> Option<Seq<Account>>
    decreases k,
{
    if k <= 0 {
        Some(tbl)
    } else {
        match from_list_run(tbl, v, k - 1) {
            None => None,
            Some(t) => match find_slot(t, v[k - 1].from) {
                None => None,
                Some(p) => Some(t.update(p as int, with_balance(t[p as int], v[k - 1].balance))),
            },
        }
    }
}

/// A table of `size` free slots.
fn blank_accounts(size: usize) -> (v: Vec<Account>)
    ensures
        v@ == blank_table(size as nat),
{
    let mut v: Vec<Account> = Vec::new();
    let mut i: usize = 0;
    while i < size
        invariant
            i <= size,
            v@ == blank_table(i as nat),
        decreases size - i,
    {
        v.push(Account::default());
        i += 1;
        proof {
            assert(v@ =~= blank_table(i as nat));
        }
    }
    v
}

impl State {
    /// A state with `size` free account slots.
    pub fn new(size: usize) -> (s: State)
        ensures
            s@.accounts == blank_table(size as nat),
            s@.used == 0,
    {
        State { accounts: blank_accounts(size), used: 0 }
    }

    /// The table of accounts.
    pub fn accounts(&self) -> (r: &[Account])
        ensures
            r@ == self@.accounts,
    {
        self.accounts.as_slice()
    }

    /// How many accounts transfers have created.
    pub fn used(&self) -> (r: usize)
        ensures
            r == self@.used,
    {
        self.used
    }

    /// A state of twice as many slots as `v` has accounts, with the balance of each
    /// account of `v` set in the slot its key looks up.
    #[verifier::spinoff_prover]
    pub fn from_list(v: &[Account]) -> (r: Result<State>)
        requires
            v@.len() * 2 <= usize::MAX,
        ensures
            match from_list_run(blank_table(2 * v@.len()), v@, v@.len() as int) {
                Some(t) => r matches Ok(s) && s@.accounts == t && s@.used == 0,
                None => is_no_space(r),
            },
    {
        let mut s = Self::new(v.len() * 2);
        let ghost tbl0 = s.accounts@;
        let mut i: usize = 0;
        while i < v.len()
            invariant
                i <= v@.len(),
                tbl0 == blank_table(2 * v@.len()),
                s.used == 0,
                from_list_run(tbl0, v@, i as int) == Some(s.accounts@),
                s.accounts@.len() == 2 * v@.len(),
                v@.len() * 2 <= usize::MAX,
            decreases v@.len() - i,
        {
            let a = v[i];
            let fp = match AccountT::find(s.accounts.as_slice(), &a.from) {
                Ok(p) => p,
                Err(e) => {
                    proof {
                        lemma_from_list_stays_failed(tbl0, v@, i as int + 1, v@.len() as int);
                    }
                    return Err(e);
                },
            };
            proof {
                assert(s.accounts@.len() == 2 * v@.len());
                lemma_probe_from_in_range(s.accounts@, a.from, 0);
            }
            let mut acc = s.accounts[fp];
            acc.balance = a.balance;
            s.accounts.set(fp, acc);
            i += 1;
        }
        Ok(s)
    }

    fn find_accounts(state: &[Account], fk: &[u8; 32], tk: &[u8; 32]) -> (r: Result<(usize, usize)>)
        ensures
            match (find_slot(state@, *fk), find_slot(state@, *tk)) {
                (Some(sf), Some(st)) => r == Ok::<(usize, usize), LoomError>((sf, st)),
                _ => is_no_space(r),
            },
    {
        let sf = match AccountT::find(state, fk) {
            Ok(p) => p,
            Err(e) => return Err(e),
        };
        let st = match AccountT::find(state, tk) {
            Ok(p) => p,
            Err(e) => return Err(e),
        };
        Ok((sf, st))
    }

    /// Takes `amount + fee` from `acc` when it holds that much, marking the message
    /// `Withdrawn`.
    fn charge(acc: &mut Account, m: &mut Message)
        requires
            old(m).tx_spec().amount + old(m).tx_spec().fee <= u64::MAX,
        ensures
            ({
                let combined = old(m).tx_spec().amount + old(m).tx_spec().fee;
                if old(acc).balance >= combined {
                    *final(acc) == with_balance(*old(acc), (old(acc).balance - combined) as u64)
                        && *final(m) == with_state(*old(m), TxState::Withdrawn)
                } else {
                    *final(acc) == *old(acc) && *final(m) == *old(m)
                }
            }),
    {
        let tx = m.get_tx();
        let combined = tx.amount + tx.fee;
        if acc.balance >= combined {
            m.state = TxState::Withdrawn;
            acc.balance = acc.balance - combined;
        }
    }

    /// Counts one new account when `to`'s slot is still free.
    fn new_account(to: &Account, num: &mut usize)
        requires
            to.from.unused_spec() ==> *old(num) < usize::MAX,
        ensures
            *final(num) == *old(num) + if to.from.unused_spec() { 1int } else { 0int },
    {
        if to.from.unused() {
            *num = *num + 1;
        }
    }

    /// Credits `amount` to `to`, claims a free slot for the receiving key, and marks
    /// the message `Deposited`.
    fn deposit(to: &mut Account, m: &mut Message)
        requires
            old(to).balance + old(m).tx_spec().amount <= u64::MAX,
            old(to).from.unused_spec() ==> !old(m).tx_spec().to.unused_spec(),
        ensures
            final(to).from == (if old(to).from.unused_spec() { old(m).tx_spec().to } else { old(to).from }),
            final(to).balance == old(to).balance + old(m).tx_spec().amount,
            *final(m) == with_state(*old(m), TxState::Deposited),
    {
        let tx = m.get_tx();
        to.balance = to.balance + tx.amount;
        if to.from.unused() {
            to.from = tx.to;
            assert(!to.from.unused_spec());
        }
        m.state = TxState::Deposited;
    }

    #[verifier::spinoff_prover]
    fn exec(accounts: &mut Vec<Account>, m: &mut Message, num_new: &mut usize) -> (r: Result<()>)
        requires
            !(exec_spec(old(accounts)@, *old(m)) is Panic),
            exec_spec(old(accounts)@, *old(m)) matches Step::Applied(_, _, n) ==> *old(num_new) + n <= usize::MAX,
        ensures
            match exec_spec(old(accounts)@, *old(m)) {
                Step::Applied(a, m2, new) => r is Ok && final(accounts)@ == a && *final(m) == m2
                    && *final(num_new) == *old(num_new) + new,
                _ => is_no_space(r) && final(accounts)@ == old(accounts)@
                    && *final(m) == *old(m) && *final(num_new) == *old(num_new),
            },
    {
        if m.kind != Kind::Transaction {
            return Ok(());
        }
        let tx = m.get_tx();
        let alen = accounts.len();
        let (sf, st) = match Self::find_accounts(accounts.as_slice(), &tx.from, &tx.to) {
            Ok(pos) => pos,
            Err(e) => return Err(e),
        };
        proof {
            lemma_probe_from_in_range(accounts@, tx.from, 0);
            lemma_probe_from_in_range(accounts@, tx.to, 0);
        }
        let from = accounts[sf];
        let to = accounts[st];
        if !from.from.same(&tx.from) {
            return Ok(());
        }
        if !to.from.unused() && !to.from.same(&tx.to) {
            return Ok(());
        }
        let mut from_acc = accounts[sf];
        Self::charge(&mut from_acc, m);
        accounts.set(sf, from_acc);
        if m.state != TxState::Withdrawn {
            return Ok(());
        }
        let mut to_acc = accounts[st];
        Self::new_account(&to_acc, num_new);
        Self::deposit(&mut to_acc, m);
        accounts.set(st, to_acc);
        Ok(())
    }

    /// Migrates the accounts into a blank table of twice the size.
    fn double(&mut self) -> (r: Result<()>)
        requires
            old(self).accounts@.len() * 2 <= usize::MAX,
        ensures
            ({
                let (d, good) = migrate_run(
                    old(self).accounts@,
                    blank_table(2 * old(self).accounts@.len()),
                    old(self).accounts@.len() as int,
                );
                &&& final(self).used == old(self).used
                &&& good ==> r is Ok && final(self).accounts@ == d
                &&& !good ==> is_no_space(r) && final(self).accounts@ == old(self).accounts@
            }),
    {
        let size = self.accounts.len() * 2;
        let mut v = blank_accounts(size);
        proof {
            lemma_writes_below_len(self.accounts@, size as int);
        }
        match AccountT::migrate(self.accounts.as_slice(), v.as_mut_slice()) {
            Ok(()) => {
                self.accounts = v;
                Ok(())
            },
            Err(e) => Err(e),
        }
    }

    /// Whether running `m` next would abort the program: an arithmetic
    /// overflow, or a deposit that claims a free slot for the zero key. `execute`
    /// may be given a message only when this is false.
    #[verifier::spinoff_prover]
    pub fn would_abort(&self, m: &Message) -> (b: bool)
        ensures
            b == (execute_run(self@.accounts, self@.used, seq![*m], 1) is Panic),
    {
        let len = self.accounts.len();
        let mut new: usize = 0;
        proof {
            reveal_with_fuel(execute_run, 2);
            assert(seq![*m][0] == *m);
        }
        if m.kind == Kind::Transaction {
            let tx = m.get_tx();
            let (sf, st) = match Self::find_accounts(self.accounts.as_slice(), &tx.from, &tx.to) {
                Ok(pos) => pos,
                Err(_) => return false,
            };
            proof {
                lemma_probe_from_in_range(self.accounts@, tx.from, 0);
                lemma_probe_from_in_range(self.accounts@, tx.to, 0);
            }
            let from = self.accounts[sf];
            let to = self.accounts[st];
            if from.from.same(&tx.from) && (to.from.unused() || to.from.same(&tx.to)) {
                let combined = match tx.amount.checked_add(tx.fee) {
                    Some(c) => c,
                    None => return true,
                };
                let charged = from.balance >= combined;
                let withdrawn = charged || m.state == TxState::Withdrawn;
                if withdrawn {
                    let to_balance = if sf == st && charged {
                        from.balance - combined
                    } else {
                        to.balance
                    };
                    if to_balance.checked_add(tx.amount).is_none() {
                        return true;
                    }
                    if to.from.unused() {
                        if tx.to.unused() {
                            return true;
                        }
                        new = 1;
                    }
                }
            }
        }
        let used = match self.used.checked_add(new) {
            Some(u) => u,
            None => return true,
        };
        if used > usize::MAX / 4 {
            return true;
        }
        if (4 * used) / 3 > len && len > usize::MAX / 2 {
            return true;
        }
        false
    }

    /// Runs the messages one by one against the accounts, as `execute_run` describes:
    /// each message is updated with its new state, and the run stops with `NoSpace` at
    /// the first message whose keys find no slot or the first doubling that fails.
    #[verifier::spinoff_prover]
    pub fn execute(&mut self, msgs: &mut [Message]) -> (r: Result<()>)
        requires
            !(execute_run(old(self)@.accounts, old(self)@.used, old(msgs)@, old(msgs)@.len() as int) is Panic),
        ensures
            match execute_run(old(self)@.accounts, old(self)@.used, old(msgs)@, old(msgs)@.len() as int) {
                Run::Done { accounts, used, msgs: ms, ok } => final(self)@.accounts == accounts
                    && final(self)@.used == used && final(msgs)@ == ms && (r is Ok <==> ok) && (r is Err ==> is_no_space(r)),
                Run::Panic => false,
            },
    {
        let ghost acc0 = self.accounts@;
        let ghost used0 = self.used as nat;
        let ghost msgs0 = msgs@;
        let n = msgs.len();
        let mut num_new: usize = 0;
        let mut i: usize = 0;
        while i < n
            invariant
                i <= n,
                n == msgs@.len(),
                n == msgs0.len(),
                num_new == 0,
                acc0 == old(self)@.accounts,
                used0 == old(self)@.used,
                msgs0 == old(msgs)@,
                !(execute_run(acc0, used0, msgs0, n as int) is Panic),
                execute_run(acc0, used0, msgs0, i as int) == (Run::Done {
                    accounts: self.accounts@,
                    used: self.used as nat,
                    msgs: msgs@,
                    ok: true,
                }),
            decreases n - i,
        {
            proof {
                lemma_run_panic_persists(acc0, used0, msgs0, i as int + 1, n as int);
            }
            let mut m = msgs[i];
            let ghost acc_before = self.accounts@;
            let ghost msgs_before = msgs@;
            match Self::exec(&mut self.accounts, &mut m, &mut num_new) {
                Ok(()) => {},
                Err(e) => {
                    proof {
                        assert(exec_spec(acc_before, msgs_before[i as int]) is NoSpace);
                        assert(execute_run(acc0, used0, msgs0, i as int + 1) == (Run::Done {
                            accounts: self.accounts@,
                            used: self.used as nat,
                            msgs: msgs@,
                            ok: false,
                        }));
                        lemma_run_failure_persists(acc0, used0, msgs0, i as int + 1, n as int);
                    }
                    return Err(e);
                },
            }
            msgs[i] = m;
            proof {
                assert(msgs@ == msgs_before.update(i as int, m));
            }
            self.used = num_new + self.used;
            if ((4 * self.used) / 3) > self.accounts.len() {
                match self.double() {
                    Ok(()) => {},
                    Err(e) => {
                        proof {
                            lemma_run_failure_persists(acc0, used0, msgs0, i as int + 1, n as int);
                        }
                        return Err(e);
                    },
                }
            }
            num_new = 0;
            i += 1;
        }
        Ok(())
    }
}

/// A run leaves the messages it has not reached as they were.
pub proof fn lemma_run_keeps_rest(accts: Seq<Account>, used: nat, msgs: Seq<Message>, k: int)
    requires
        0 <= k <= msgs.len(),
    ensures
        execute_run(accts, used, msgs, k) matches Run::Done { msgs: ms, .. } ==> ms.len() == msgs.len()
            && forall|j: int| k <= j < msgs.len() ==> ms[j] == msgs[j],
    decreases k,
{
    if k > 0 {
        lemma_run_keeps_rest(accts, used, msgs, k - 1);
    }
}

/// Running a batch is running its messages one at a time: once the first `k`
/// messages have gone through, the next step of the batch is a run of the single
/// next message from where the batch stands.
#[verifier::spinoff_prover]
pub proof fn lemma_execute_one_at_a_time(accts: Seq<Account>, used: nat, msgs: Seq<Message>, k: int)
    requires
        0 <= k < msgs.len(),
        execute_run(accts, used, msgs, k) matches Run::Done { ok, .. } && ok,
    ensures
        ({
            let prefix = execute_run(accts, used, msgs, k);
            let single = execute_run(prefix->accounts, prefix->used, seq![msgs[k]], 1);
            execute_run(accts, used, msgs, k + 1) == match single {
                Run::Panic => Run::Panic,
                Run::Done { accounts, used: u, msgs: ms, ok } => Run::Done {
                    accounts,
                    used: u,
                    msgs: prefix->msgs.update(k, ms[0]),
                    ok,
                },
            }
        }),
{
    lemma_run_keeps_rest(accts, used, msgs, k);
    reveal_with_fuel(execute_run, 2);
    let prefix = execute_run(accts, used, msgs, k);
    let m = msgs[k];
    assert(prefix->msgs[k] == m);
    assert(seq![m][0] == m);
    assert(prefix->msgs.update(k, m) =~= prefix->msgs);
    match exec_spec(prefix->accounts, m) {
        Step::Applied(a2, m2, new) => {
            assert(seq![m].update(0, m2)[0] == m2);
        },
        _ => {},
    }
}

/// One message keeps the table's size, creates at most one account, and creates one
/// only in a table that has a slot.
pub proof fn lemma_exec_shape(accts: Seq<Account>, m: Message)
    requires
        accts.len() <= usize::MAX,
    ensures
        match exec_spec(accts, m) {
            Step::Applied(a2, _, new) => a2.len() == accts.len() && new <= 1 && (new == 1 ==> accts.len() >= 1),
            _ => true,
        },
{
    if m.kind == Kind::Transaction {
        let tx = m.tx_spec();
        lemma_probe_from_in_range(accts, tx.from, 0);
        lemma_probe_from_in_range(accts, tx.to, 0);
    }
}

/// The load bound: four thirds of the count of created accounts stay within the
/// table size.
pub open spec fn load_ok(used: nat, len: nat) -> bool {
    4 * used / 3 <= len
}

proof fn lemma_load_step(u: nat, new: nat, len: nat)
    requires
        load_ok(u, len),
        new <= 1,
        new == 1 ==> len >= 1,
    ensures
        load_ok(u + new, len) || load_ok(u + new, 2 * len),
{
}

/// A run that goes through keeps the load bound, and the table it ends with is the
/// starting table doubled at most once per message.
#[verifier::spinoff_prover]
pub proof fn lemma_run_keeps_load(accts: Seq<Account>, used: nat, msgs: Seq<Message>, k: int)
    requires
        accts.len() <= usize::MAX,
        load_ok(used, accts.len()),
        0 <= k <= msgs.len(),
    ensures
        match execute_run(accts, used, msgs, k) {
            Run::Done { accounts, used: u, ok, .. } => ok ==> load_ok(u, accounts.len()) && accounts.len()
                <= usize::MAX && exists|j: nat| j <= k && accounts.len() == doubled(accts.len(), j),
            Run::Panic => true,
        },
    decreases k,
{
    if k == 0 {
        assert(accts.len() == doubled(accts.len(), 0));
    } else {
        lemma_run_keeps_load(accts, used, msgs, k - 1);
        if let Run::Done { accounts: a, used: u, msgs: ms, ok } = execute_run(accts, used, msgs, k - 1) {
            if ok {
                let j0 = choose|j: nat| j <= k - 1 && a.len() == doubled(accts.len(), j);
                lemma_exec_shape(a, ms[k - 1]);
                if let Step::Applied(a2, m2, new) = exec_spec(a, ms[k - 1]) {
                    let u2 = new + u;
                    lemma_load_step(u, new, a.len());
                    if u2 <= usize::MAX && 4 * u2 <= usize::MAX && (4 * u2) / 3 > a2.len() && 2 * a2.len() <= usize::MAX {
                        lemma_migrate_len(a2, blank_table(2 * a2.len()), a2.len() as int);
                        assert(2 * a2.len() == doubled(accts.len(), j0 + 1));
                    } else {
                        assert(a2.len() == doubled(accts.len(), j0));
                    }
                }
            }
        }
    }
}

/// A batch that stops at a message whose keys find no slot leaves the state that the
/// messages before it reached, and leaves that message and the ones after it as they
/// were.
pub proof fn lemma_failed_batch_keeps_prefix(accts: Seq<Account>, used: nat, msgs: Seq<Message>, k: int)
    requires
        0 <= k < msgs.len(),
        execute_run(accts, used, msgs, k) matches Run::Done { ok, .. } && ok,
        exec_spec(execute_run(accts, used, msgs, k)->accounts, msgs[k]) is NoSpace,
    ensures
        ({
            let prefix = execute_run(accts, used, msgs, k);
            &&& execute_run(accts, used, msgs, msgs.len() as int) == (Run::Done {
                accounts: prefix->accounts,
                used: prefix->used,
                msgs: prefix->msgs,
                ok: false,
            })
            &&& forall|j: int| k <= j < msgs.len() ==> prefix->msgs[j] == msgs[j]
        }),
{
    lemma_run_keeps_rest(accts, used, msgs, k);
    assert(execute_run(accts, used, msgs, k + 1) matches Run::Done { ok, .. } && !ok);
    lemma_run_failure_persists(accts, used, msgs, k + 1, msgs.len() as int);
}

/// The fees of the transactions among the first `k` messages that ended deposited:
/// `orig` are the messages as given, `fin` as the run left them.
pub open spec fn deposited_fees(orig: Seq<Message>, fin: Seq<Message>, k: int) -> int
    decreases k,
{
    if k <= 0 {
        0
    } else {
        deposited_fees(orig, fin, k - 1) + (if orig[k - 1].kind == Kind::Transaction && fin[k - 1].state
            == TxState::Deposited {
            orig[k - 1].tx_spec().fee as int
        } else {
            0
        })
    }
}

proof fn lemma_fees_prefix(orig: Seq<Message>, f1: Seq<Message>, f2: Seq<Message>, k: int)
    requires
        forall|j: int| 0 <= j < k ==> f1[j] == f2[j],
    ensures
        deposited_fees(orig, f1, k) == deposited_fees(orig, f2, k),
    decreases k,
{
    if k > 0 {
        lemma_fees_prefix(orig, f1, f2, k - 1);
    }
}

/// A batch of transactions that arrive in state `Unknown` makes no money: as long as
/// the table has not grown, it holds the starting total less the fees of the
/// transactions that ended deposited. (A doubling migrates items to the slots their
/// lookups settle on in the old table, where two items can land on one slot; the
/// total is kept across the doublings that merge nothing, as
/// `lemma_batch_burns_only_fees_without_merges` shows.)
#[verifier::spinoff_prover]
pub proof fn lemma_batch_burns_only_fees(accts: Seq<Account>, used: nat, msgs: Seq<Message>, k: int)
    requires
        accts.len() <= usize::MAX,
        0 <= k <= msgs.len(),
        forall|i: int| 0 <= i < msgs.len() && msgs[i].kind == Kind::Transaction ==> msgs[i].state == TxState::Unknown,
    ensures
        match execute_run(accts, used, msgs, k) {
            Run::Done { accounts, msgs: ms, .. } => accounts.len() >= accts.len() && accounts.len() <= usize::MAX
                && (accounts.len() == accts.len() ==> total(accounts) == total(accts) - deposited_fees(msgs, ms, k)),
            Run::Panic => true,
        },
    decreases k,
{
    if k > 0 {
        lemma_batch_burns_only_fees(accts, used, msgs, k - 1);
        lemma_run_keeps_rest(accts, used, msgs, k - 1);
        if let Run::Done { accounts: a, used: u, msgs: ms, ok } = execute_run(accts, used, msgs, k - 1) {
            let m = msgs[k - 1];
            assert(ms[k - 1] == m);
            if ok {
                lemma_exec_shape(a, m);
                if let Step::Applied(a2, m2, new) = exec_spec(a, m) {
                    let ms2 = ms.update(k - 1, m2);
                    lemma_fees_prefix(msgs, ms, ms2, k - 1);
                    if m.kind == Kind::Transaction {
                        lemma_transfer_burns_only_the_fee(a, m);
                    }
                    let u2 = new + u;
                    if u2 <= usize::MAX && 4 * u2 <= usize::MAX && (4 * u2) / 3 > a2.len() && 2 * a2.len() <= usize::MAX {
                        lemma_migrate_len(a2, blank_table(2 * a2.len()), a2.len() as int);
                        let d = migrate_run(a2, blank_table(2 * a2.len()), a2.len() as int).0;
                        if a2.len() == 0 {
                            assert(total(d) == 0);
                            assert(total(a2) == 0);
                        }
                    }
                }
            }
        }
    }
}

/// A run that has panicked stays panicked.
pub proof fn lemma_run_panic_persists(accts: Seq<Account>, used: nat, msgs: Seq<Message>, i: int, k: int)
    requires
        i <= k,
        !(execute_run(accts, used, msgs, k) is Panic),
    ensures
        !(execute_run(accts, used, msgs, i) is Panic),
    decreases k - i,
{
    if i < k {
        lemma_run_panic_persists(accts, used, msgs, i, k - 1);
    }
}

/// A run that has stopped stays where it stopped.
pub proof fn lemma_run_failure_persists(accts: Seq<Account>, used: nat, msgs: Seq<Message>, i: int, k: int)
    requires
        i <= k,
        execute_run(accts, used, msgs, i) matches Run::Done { ok, .. } && !ok,
    ensures
        execute_run(accts, used, msgs, k) == execute_run(accts, used, msgs, i),
    decreases k - i,
{
    if i < k {
        lemma_run_failure_persists(accts, used, msgs, i, k - 1);
    }
}

proof fn lemma_from_list_stays_failed(tbl: Seq<Account>, v: Seq<Account>, i: int, k: int)
    requires
        i <= k,
        from_list_run(tbl, v, i) is None,
    ensures
        from_list_run(tbl, v, k) is None,
    decreases k - i,
{
    if i < k {
        lemma_from_list_stays_failed(tbl, v, i, k - 1);
    }
}

/// Every slot of the table is free.
pub open spec fn all_free(t: Seq<Account>) -> bool {
    forall|i: int| 0 <= i < t.len() ==> (#[trigger] t[i]).from == zero_key()
}

/// `from_list` never fails: it writes only balances, so every slot keeps the zero
/// key and each lookup settles on the first slot it probes.
#[verifier::spinoff_prover]
pub proof fn lemma_from_list_succeeds(v: Seq<Account>, k: int)
    requires
        0 <= k <= v.len(),
    ensures
        from_list_run(blank_table(2 * v.len()), v, k) matches Some(t) && all_free(t) && t.len() == 2
            * v.len(),
    decreases k,
{
    if k == 0 {
        assert(all_free(blank_table(2 * v.len())));
    } else {
        lemma_from_list_succeeds(v, k - 1);
        let t = from_list_run(blank_table(2 * v.len()), v, k - 1).unwrap();
        let key = v[k - 1].from;
        let n = t.len() as int;
        lemma_probe_range(key.start_spec(), 0, n);
        lemma_zero_key();
        let p = probe(key.start_spec(), 0, n);
        assert(takes(t, key, p));
        assert(find_slot(t, key) == Some(p as usize));
        let t2 = t.update(p, with_balance(t[p], v[k - 1].balance));
        assert(all_free(t2));
    }
}

/// The sum of the balances of a table.
pub open spec fn total(t: Seq<Account>) -> int
    decreases t.len(),
{
    if t.len() == 0 {
        0
    } else {
        total(t.drop_last()) + t.last().balance
    }
}

proof fn lemma_total_update(t: Seq<Account>, i: int, a: Account)
    requires
        0 <= i < t.len(),
    ensures
        total(t.update(i, a)) == total(t) - t[i].balance + a.balance,
    decreases t.len(),
{
    let u = t.update(i, a);
    if i < t.len() - 1 {
        assert(u.drop_last() =~= t.drop_last().update(i, a));
        lemma_total_update(t.drop_last(), i, a);
    } else {
        assert(u.drop_last() =~= t.drop_last());
    }
}

/// A transaction that arrives in state `Unknown` moves money without making any: it
/// goes through only when the sender can pay `amount + fee`, and then the table
/// loses exactly the fee, the amount passing from sender to receiver.
#[verifier::spinoff_prover]
pub proof fn lemma_transfer_burns_only_the_fee(accts: Seq<Account>, m: Message)
    requires
        accts.len() <= usize::MAX,
        m.state == TxState::Unknown,
        exec_spec(accts, m) is Applied,
    ensures
        exec_spec(accts, m) matches Step::Applied(a2, m2, new) && total(a2) == total(accts) - (if m2.state
            == TxState::Deposited {
            m.tx_spec().fee as int
        } else {
            0
        }),
{
    if m.kind == Kind::Transaction {
        let tx = m.tx_spec();
        if let (Some(sf), Some(st)) = (find_slot(accts, tx.from), find_slot(accts, tx.to)) {
            let from = accts[sf as int];
            let to = accts[st as int];
            if from.from == tx.from && (to.from.unused_spec() || to.from == tx.to) {
                let combined = tx.amount + tx.fee;
                lemma_probe_from_in_range(accts, tx.from, 0);
                lemma_probe_from_in_range(accts, tx.to, 0);
                if from.balance >= combined {
                    let a1 = accts.update(sf as int, with_balance(from, (from.balance - combined) as u64));
                    lemma_total_update(accts, sf as int, with_balance(from, (from.balance - combined) as u64));
                    let to1 = a1[st as int];
                    let to2 = Account {
                        from: if to1.from.unused_spec() { tx.to } else { to1.from },
                        balance: (to1.balance + tx.amount) as u64,
                    };
                    lemma_total_update(a1, st as int, to2);
                }
            }
        }
    }
}

/// Whether a slot holds an account: its key is not the zero key.
pub open spec fn holds(a: Account) -> bool {
    !a.from.unused_spec()
}

/// The sum of the balances in the first `k` slots that hold an account.
pub open spec fn held_sum(t: Seq<Account>, k: int) -> int
    decreases k,
{
    if k <= 0 {
        0
    } else {
        held_sum(t, k - 1) + if holds(t[k - 1]) { t[k - 1].balance as int } else { 0 }
    }
}

/// Every free slot of the table has a zero balance.
pub open spec fn free_slots_empty(t: Seq<Account>) -> bool {
    forall|i: int| 0 <= i < t.len() && !holds(#[trigger] t[i]) ==> t[i].balance == 0
}

proof fn lemma_held_sum_prefix(t1: Seq<Account>, t2: Seq<Account>, k: int)
    requires
        forall|i: int| 0 <= i < k ==> t1[i] == t2[i],
    ensures
        held_sum(t1, k) == held_sum(t2, k),
    decreases k,
{
    if k > 0 {
        lemma_held_sum_prefix(t1, t2, k - 1);
    }
}

proof fn lemma_held_sum_update(t: Seq<Account>, i: int, a: Account, k: int)
    requires
        0 <= i < t.len(),
        0 <= k <= t.len(),
    ensures
        held_sum(t.update(i, a), k) == held_sum(t, k) + (if i < k {
            (if holds(a) { a.balance as int } else { 0int }) - (if holds(t[i]) { t[i].balance as int } else { 0int })
        } else {
            0int
        }),
    decreases k,
{
    if k > 0 {
        lemma_held_sum_update(t, i, a, k - 1);
    }
}

/// When free slots hold no money, the total is the sum over the slots that hold an
/// account.
proof fn lemma_total_held(t: Seq<Account>)
    requires
        free_slots_empty(t),
    ensures
        total(t) == held_sum(t, t.len() as int),
    decreases t.len(),
{
    if t.len() > 0 {
        let d = t.drop_last();
        assert(free_slots_empty(d)) by {
            assert forall|i: int| 0 <= i < d.len() && !holds(#[trigger] d[i]) implies d[i].balance == 0 by {
                assert(d[i] == t[i]);
            }
        }
        lemma_total_held(d);
        lemma_held_sum_prefix(d, t, d.len() as int);
        assert(t.last() == t[t.len() - 1]);
    }
}

/// One message changes the number of occupied slots by exactly the number of accounts
/// it creates, keeps free slots empty, and keeps every key where its lookup settles.
#[verifier::spinoff_prover]
pub proof fn lemma_exec_keeps_slots(accts: Seq<Account>, m: Message)
    requires
        accts.len() <= usize::MAX,
    ensures
        exec_spec(accts, m) matches Step::Applied(a2, _, new) ==> {
            &&& used_slots(a2) == used_slots(accts) + new
            &&& free_slots_empty(accts) ==> free_slots_empty(a2)
            &&& well_placed(accts) ==> well_placed(a2)
        },
{
    lemma_zero_key();
    if m.kind == Kind::Transaction {
        let tx = m.tx_spec();
        if let (Some(sf), Some(st)) = (find_slot(accts, tx.from), find_slot(accts, tx.to)) {
            let from = accts[sf as int];
            let to = accts[st as int];
            lemma_probe_from_in_range(accts, tx.from, 0);
            lemma_probe_from_in_range(accts, tx.to, 0);
            let n = accts.len() as int;
            if from.from == tx.from && (to.from.unused_spec() || to.from == tx.to) && tx.amount + tx.fee <= u64::MAX {
                let combined = tx.amount + tx.fee;
                let a1 = if from.balance >= combined {
                    accts.update(sf as int, with_balance(from, (from.balance - combined) as u64))
                } else {
                    accts
                };
                assert(keys_match(accts, a1));
                lemma_keys_match(accts, a1);
                if from.balance >= combined {
                    lemma_count_used_update(accts, sf as int, with_balance(from, (from.balance - combined) as u64), n);
                }
                assert(free_slots_empty(accts) ==> free_slots_empty(a1));
                if let Step::Applied(a2, m2, new) = exec_spec(accts, m) {
                    if m2.state == TxState::Deposited && a2 != a1 {
                        let to1 = a1[st as int];
                        let to2 = Account {
                            from: if to1.from.unused_spec() { tx.to } else { to1.from },
                            balance: (to1.balance + tx.amount) as u64,
                        };
                        assert(a2 == a1.update(st as int, to2));
                        assert(to1.from == to.from);
                        assert(to2.from == tx.to);
                        lemma_count_used_update(a1, st as int, to2, n);
                        if well_placed(accts) {
                            assert(find_slot(a1, tx.to) == Some(st));
                            lemma_store_keeps_well_placed(a1, to2);
                        }
                    }
                }
            }
        }
    }
}

/// Migrating a table that merges nothing into a blank table writes each of its
/// accounts to a slot of its own, so the destination holds as much money as the
/// first `k` accounts, and its free slots none.
#[verifier::spinoff_prover]
proof fn lemma_migrate_money(src: Seq<Account>, m: nat, k: int)
    requires
        src.len() <= m <= usize::MAX,
        0 <= k <= src.len(),
        no_merge(src),
        migrate_run(src, blank_table(m), k).1,
    ensures
        ({
            let d = migrate_run(src, blank_table(m), k).0;
            &&& held_sum(d, m as int) == held_sum(src, k)
            &&& free_slots_empty(d)
        }),
    decreases k,
{
    lemma_zero_key();
    let blank = blank_table(m);
    assert forall|i: int| 0 <= i < blank.len() implies (#[trigger] blank[i]).key_spec().unused_spec() by {}
    if k == 0 {
        lemma_blank_held_sum(m, m as int);
    } else {
        if !migrate_run(src, blank, k - 1).1 {
            lemma_migrate_stays_failed(src, blank, k - 1, k);
        }
        lemma_migrate_money(src, m, k - 1);
        lemma_migrate_count_used(src, blank, k - 1);
        let d0 = migrate_run(src, blank, k - 1).0;
        let d = migrate_run(src, blank, k).0;
        let item = src[k - 1];
        if holds(item) {
            lemma_probe_from_in_range(src, item.from, 0);
            let p = find_slot(src, item.from).unwrap() as int;
            assert(d == d0.update(p, item));
            if d0[p] != blank[p] {
                let i = choose|i: int|
                    0 <= i < k - 1 && !src[i].key_spec().unused_spec() && find_slot(src, src[i].key_spec())
                        == Some(p as usize);
                assert(false);
            }
            lemma_held_sum_update(d0, p, item, m as int);
        } else {
            assert(d == d0);
        }
    }
}

proof fn lemma_blank_held_sum(m: nat, k: int)
    requires
        0 <= k <= m,
    ensures
        held_sum(blank_table(m), k) == 0,
        free_slots_empty(blank_table(m)),
    decreases k,
{
    lemma_zero_key();
    if k > 0 {
        lemma_blank_held_sum(m, k - 1);
    }
}

/// Doubling a table that merges nothing keeps the number of occupied slots, and,
/// when its free slots hold no money, the money in the table.
pub proof fn lemma_double_keeps_slots(src: Seq<Account>)
    requires
        2 * src.len() <= usize::MAX,
        no_merge(src),
        migrate_run(src, blank_table(2 * src.len()), src.len() as int).1,
    ensures
        ({
            let d = migrate_run(src, blank_table(2 * src.len()), src.len() as int).0;
            &&& used_slots(d) == used_slots(src)
            &&& free_slots_empty(src) ==> free_slots_empty(d) && total(d) == total(src)
        }),
{
    let m = 2 * src.len();
    let blank = blank_table(m);
    lemma_zero_key();
    assert forall|i: int| 0 <= i < blank.len() implies (#[trigger] blank[i]).key_spec().unused_spec() by {}
    lemma_migrate_count_used(src, blank, src.len() as int);
    lemma_migrate_money(src, m, src.len() as int);
    let d = migrate_run(src, blank, src.len() as int).0;
    lemma_total_held(d);
    if free_slots_empty(src) {
        lemma_total_held(src);
    }
}

/// No doubling among the first `k` steps of the run merges two accounts into one
/// slot.
pub open spec fn doublings_merge_nothing(accts: Seq<Account>, used: nat, msgs: Seq<Message>, k: int) -> bool
    decreases k,
{
    if k <= 0 {
        true
    } else {
        &&& doublings_merge_nothing(accts, used, msgs, k - 1)
        &&& match execute_run(accts, used, msgs, k - 1) {
            Run::Done { accounts: a, used: u, msgs: ms, ok } => ok ==> match exec_spec(a, ms[k - 1]) {
                Step::Applied(a2, _, new) => (4 * (new + u)) / 3 > a2.len() ==> no_merge(a2),
                _ => true,
            },
            Run::Panic => true,
        }
    }
}

/// The count of created accounts is the number of occupied slots: a run that starts
/// with the two equal keeps them equal as long as no doubling merges two accounts
/// into one slot.
#[verifier::spinoff_prover]
pub proof fn lemma_run_used_is_occupied(accts: Seq<Account>, used: nat, msgs: Seq<Message>, k: int)
    requires
        accts.len() <= usize::MAX,
        used == used_slots(accts),
        0 <= k <= msgs.len(),
    ensures
        execute_run(accts, used, msgs, k) matches Run::Done { accounts, used: u, .. } ==> accounts.len()
            <= usize::MAX && (doublings_merge_nothing(accts, used, msgs, k) ==> u == used_slots(accounts)),
    decreases k,
{
    if k > 0 {
        lemma_run_used_is_occupied(accts, used, msgs, k - 1);
        if let Run::Done { accounts: a, used: u, msgs: ms, ok } = execute_run(accts, used, msgs, k - 1) {
            if ok {
                lemma_exec_shape(a, ms[k - 1]);
                lemma_exec_keeps_slots(a, ms[k - 1]);
                if let Step::Applied(a2, m2, new) = exec_spec(a, ms[k - 1]) {
                    let u2 = new + u;
                    if u2 <= usize::MAX && 4 * u2 <= usize::MAX && (4 * u2) / 3 > a2.len() && 2 * a2.len() <= usize::MAX {
                        lemma_migrate_len(a2, blank_table(2 * a2.len()), a2.len() as int);
                        if doublings_merge_nothing(accts, used, msgs, k) && migrate_run(
                            a2,
                            blank_table(2 * a2.len()),
                            a2.len() as int,
                        ).1 {
                            lemma_double_keeps_slots(a2);
                        }
                    }
                }
            }
        }
    }
}

/// A batch of transactions that arrive in state `Unknown`, run on a table whose free
/// slots hold no money, makes no money even when the table grows: as long as no
/// doubling merges two accounts into one slot, the table holds the starting total
/// less the fees of the transactions that ended deposited.
#[verifier::spinoff_prover]
pub proof fn lemma_batch_burns_only_fees_without_merges(
    accts: Seq<Account>,
    used: nat,
    msgs: Seq<Message>,
    k: int,
)
    requires
        accts.len() <= usize::MAX,
        free_slots_empty(accts),
        0 <= k <= msgs.len(),
        forall|i: int| 0 <= i < msgs.len() && msgs[i].kind == Kind::Transaction ==> msgs[i].state == TxState::Unknown,
    ensures
        execute_run(accts, used, msgs, k) matches Run::Done { accounts, msgs: ms, .. } ==> accounts.len()
            <= usize::MAX && (doublings_merge_nothing(accts, used, msgs, k) ==> free_slots_empty(accounts)
            && total(accounts) == total(accts) - deposited_fees(msgs, ms, k)),
    decreases k,
{
    if k > 0 {
        lemma_batch_burns_only_fees_without_merges(accts, used, msgs, k - 1);
        lemma_run_keeps_rest(accts, used, msgs, k - 1);
        if let Run::Done { accounts: a, used: u, msgs: ms, ok } = execute_run(accts, used, msgs, k - 1) {
            let m = msgs[k - 1];
            assert(ms[k - 1] == m);
            if ok {
                lemma_exec_shape(a, m);
                lemma_exec_keeps_slots(a, m);
                if let Step::Applied(a2, m2, new) = exec_spec(a, m) {
                    let ms2 = ms.update(k - 1, m2);
                    lemma_fees_prefix(msgs, ms, ms2, k - 1);
                    if m.kind == Kind::Transaction {
                        lemma_transfer_burns_only_the_fee(a, m);
                    }
                    let u2 = new + u;
                    if u2 <= usize::MAX && 4 * u2 <= usize::MAX && (4 * u2) / 3 > a2.len() && 2 * a2.len() <= usize::MAX {
                        lemma_migrate_len(a2, blank_table(2 * a2.len()), a2.len() as int);
                        if doublings_merge_nothing(accts, used, msgs, k) && migrate_run(
                            a2,
                            blank_table(2 * a2.len()),
                            a2.len() as int,
                        ).1 {
                            lemma_double_keeps_slots(a2);
                        }
                    }
                }
            }
        }
    }
}

/// Until the table grows, every account sits in the one slot where a lookup of its
/// key settles: a run from a well-placed table never shrinks it, and leaves it well
/// placed when it ends at the size it started with.
#[verifier::spinoff_prover]
pub proof fn lemma_run_keeps_well_placed(accts: Seq<Account>, used: nat, msgs: Seq<Message>, k: int)
    requires
        accts.len() <= usize::MAX,
        well_placed(accts),
        0 <= k <= msgs.len(),
    ensures
        execute_run(accts, used, msgs, k) matches Run::Done { accounts, .. } ==> accts.len() <= accounts.len()
            <= usize::MAX && (accounts.len() == accts.len() ==> well_placed(accounts)),
    decreases k,
{
    if k > 0 {
        lemma_run_keeps_well_placed(accts, used, msgs, k - 1);
        if let Run::Done { accounts: a, used: u, msgs: ms, ok } = execute_run(accts, used, msgs, k - 1) {
            if ok {
                lemma_exec_shape(a, ms[k - 1]);
                lemma_exec_keeps_slots(a, ms[k - 1]);
                if let Step::Applied(a2, m2, new) = exec_spec(a, ms[k - 1]) {
                    let u2 = new + u;
                    if u2 <= usize::MAX && 4 * u2 <= usize::MAX && (4 * u2) / 3 > a2.len() && 2 * a2.len() <= usize::MAX {
                        lemma_migrate_len(a2, blank_table(2 * a2.len()), a2.len() as int);
                    }
                }
            }
        }
    }
}

/// A step of a run never shrinks the table, and a run that has not panicked after
/// `k` steps had not after `k - 1`.
proof fn lemma_run_len_step(accts: Seq<Account>, used: nat, msgs: Seq<Message>, k: int)
    requires
        0 < k <= msgs.len(),
    ensures
        execute_run(accts, used, msgs, k) matches Run::Done { accounts, .. } ==> execute_run(accts, used, msgs, k - 1) matches Run::Done { accounts: a, .. } && (a.len() <= usize::MAX ==> a.len() <= accounts.len()),
{
    lemma_run_keeps_rest(accts, used, msgs, k - 1);
    if let Run::Done { accounts: a, used: u, msgs: ms, ok } = execute_run(accts, used, msgs, k - 1) {
        if ok && a.len() <= usize::MAX {
            lemma_exec_shape(a, ms[k - 1]);
            if let Step::Applied(a2, _, new) = exec_spec(a, ms[k - 1]) {
                let u2 = new + u;
                if u2 <= usize::MAX && 4 * u2 <= usize::MAX && (4 * u2) / 3 > a2.len() && 2 * a2.len() <= usize::MAX {
                    lemma_migrate_len(a2, blank_table(2 * a2.len()), a2.len() as int);
                }
            }
        }
    }
}

/// The first doubling of a run from a well-placed table merges nothing: as long as
/// the table still has its starting size after `k` steps, no doubling among the first
/// `k + 1` steps merges two accounts into one slot.
#[verifier::spinoff_prover]
pub proof fn lemma_first_doubling_merges_nothing(accts: Seq<Account>, used: nat, msgs: Seq<Message>, k: int)
    requires
        accts.len() <= usize::MAX,
        well_placed(accts),
        0 <= k < msgs.len(),
    ensures
        execute_run(accts, used, msgs, k) matches Run::Done { accounts, .. } && accounts.len() == accts.len()
            ==> doublings_merge_nothing(accts, used, msgs, k + 1),
    decreases k,
{
    lemma_run_keeps_well_placed(accts, used, msgs, k);
    if let Run::Done { accounts: a, used: u, msgs: ms, ok } = execute_run(accts, used, msgs, k) {
        if a.len() == accts.len() {
            assert(doublings_merge_nothing(accts, used, msgs, k)) by {
                if k > 0 {
                    lemma_run_keeps_well_placed(accts, used, msgs, k - 1);
                    lemma_run_len_step(accts, used, msgs, k);
                    lemma_first_doubling_merges_nothing(accts, used, msgs, k - 1);
                }
            }
            assert(ok ==> match exec_spec(a, ms[k]) {
                Step::Applied(a2, _, new) => (4 * (new + u)) / 3 > a2.len() ==> no_merge(a2),
                _ => true,
            }) by {
                lemma_run_keeps_rest(accts, used, msgs, k);
                lemma_exec_keeps_slots(a, ms[k]);
                lemma_exec_shape(a, ms[k]);
                if let Step::Applied(a2, _, _) = exec_spec(a, ms[k]) {
                    lemma_well_placed_no_merge(a2);
                }
            }
        }
    }
}

/// A run settles each transaction that arrives in state `Unknown`: it ends as it came
/// or marked `Deposited`, and every other message ends as it came.
pub proof fn lemma_run_settles_transactions(accts: Seq<Account>, used: nat, msgs: Seq<Message>, k: int)
    requires
        0 <= k <= msgs.len(),
        forall|i: int| 0 <= i < msgs.len() && msgs[i].kind == Kind::Transaction ==> msgs[i].state == TxState::Unknown,
    ensures
        execute_run(accts, used, msgs, k) matches Run::Done { msgs: ms, .. } ==> ms.len() == msgs.len() && forall|j: int|
            0 <= j < msgs.len() ==> #[trigger] ms[j] == msgs[j] || (msgs[j].kind == Kind::Transaction && ms[j]
                == with_state(msgs[j], TxState::Deposited)),
    decreases k,
{
    lemma_run_keeps_rest(accts, used, msgs, k);
    if k > 0 {
        lemma_run_settles_transactions(accts, used, msgs, k - 1);
        lemma_run_keeps_rest(accts, used, msgs, k - 1);
        if let Run::Done { accounts: a, msgs: ms, ok, .. } = execute_run(accts, used, msgs, k - 1) {
            let m = msgs[k - 1];
            assert(ms[k - 1] == m);
            if ok {
                if let Step::Applied(_, m2, _) = exec_spec(a, m) {
                    assert(m2 == m || (m.kind == Kind::Transaction && m2 == with_state(m, TxState::Deposited)));
                    let ms2 = ms.update(k - 1, m2);
                    assert forall|j: int| 0 <= j < msgs.len() implies #[trigger] ms2[j] == msgs[j] || (msgs[j].kind
                        == Kind::Transaction && ms2[j] == with_state(msgs[j], TxState::Deposited)) by {
                        if j != k - 1 {
                            assert(ms2[j] == ms[j]);
                        }
                    }
                }
            }
        }
    }
}

/// Only transactions touch the accounts: any other message leaves the table as it
/// is, creates no account and ends as it came.
pub proof fn lemma_non_transaction_changes_nothing(accts: Seq<Account>, m: Message)
    requires
        m.kind != Kind::Transaction,
    ensures
        exec_spec(accts, m) == Step::Applied(accts, m, 0),
{
}

/// A funded transfer goes through, whatever state the message arrives in (a message
/// executed once already, marked `Deposited`, runs again): when the sender's slot
/// holds the sender's key with at least `amount + fee`, and the receiver's slot is
/// free or already holds the receiver's key, the sender pays `amount + fee`, the
/// receiver's slot holds the receiver's key and gains `amount`, the message ends
/// `Deposited`, one account is created exactly when the receiver's slot was free,
/// and no other slot changes. (The receiver's balance must stay within `u64`, and a
/// free receiver slot cannot be claimed for the zero key.)
#[verifier::spinoff_prover]
pub proof fn lemma_funded_transfer_deposits(accts: Seq<Account>, m: Message, sf: usize, st: usize)
    requires
        accts.len() <= usize::MAX,
        m.kind == Kind::Transaction,
        find_slot(accts, m.tx_spec().from) == Some(sf),
        find_slot(accts, m.tx_spec().to) == Some(st),
        accts[sf as int].from == m.tx_spec().from,
        accts[st as int].from.unused_spec() || accts[st as int].from == m.tx_spec().to,
        accts[sf as int].balance >= m.tx_spec().amount + m.tx_spec().fee,
        accts[st as int].balance - (if sf == st { m.tx_spec().amount + m.tx_spec().fee } else { 0 })
            + m.tx_spec().amount <= u64::MAX,
        !(accts[st as int].from.unused_spec() && m.tx_spec().to.unused_spec()),
    ensures
        exec_spec(accts, m) matches Step::Applied(a2, m2, n) && {
            let tx = m.tx_spec();
            &&& m2 == with_state(m, TxState::Deposited)
            &&& a2.len() == accts.len()
            &&& forall|i: int| 0 <= i < accts.len() && i != sf && i != st ==> a2[i] == accts[i]
            &&& sf != st ==> a2[sf as int] == with_balance(
                accts[sf as int],
                (accts[sf as int].balance - tx.amount - tx.fee) as u64,
            )
            &&& a2[st as int].from == tx.to
            &&& a2[st as int].balance == accts[st as int].balance - (if sf == st {
                tx.amount + tx.fee
            } else {
                0
            }) + tx.amount
            &&& n == if accts[st as int].from.unused_spec() { 1nat } else { 0nat }
        },
{
    let tx = m.tx_spec();
    lemma_probe_from_in_range(accts, tx.from, 0);
    lemma_probe_from_in_range(accts, tx.to, 0);
    let combined = tx.amount + tx.fee;
    let from = accts[sf as int];
    let a1 = accts.update(sf as int, with_balance(from, (from.balance - combined) as u64));
    assert(a1[st as int].balance == accts[st as int].balance - (if sf == st { combined } else { 0 }));
    assert(a1[st as int].from == accts[st as int].from);
}

/// A transfer whose keys do not match their slots changes nothing: when the sender's
/// slot holds another key, or the receiver's slot holds a key other than the
/// receiver's, the table, the message and the count stay as they were.
pub proof fn lemma_mismatched_transfer_changes_nothing(accts: Seq<Account>, m: Message, sf: usize, st: usize)
    requires
        m.kind == Kind::Transaction,
        find_slot(accts, m.tx_spec().from) == Some(sf),
        find_slot(accts, m.tx_spec().to) == Some(st),
        accts[sf as int].from != m.tx_spec().from || (!accts[st as int].from.unused_spec() && accts[st as int].from
            != m.tx_spec().to),
    ensures
        exec_spec(accts, m) == Step::Applied(accts, m, 0),
{
}

/// A transfer the sender cannot pay changes nothing unless it arrives already marked
/// `Withdrawn`: the table, the message and the count stay as they were (or the run
/// aborts, when `amount + fee` overflows).
pub proof fn lemma_unfunded_transfer_changes_nothing(accts: Seq<Account>, m: Message, sf: usize)
    requires
        m.kind == Kind::Transaction,
        m.state != TxState::Withdrawn,
        find_slot(accts, m.tx_spec().from) == Some(sf),
        find_slot(accts, m.tx_spec().to) is Some,
        accts[sf as int].balance < m.tx_spec().amount + m.tx_spec().fee,
    ensures
        exec_spec(accts, m) == Step::Applied(accts, m, 0) || (exec_spec(accts, m) is Panic && m.tx_spec().amount
            + m.tx_spec().fee > u64::MAX),
{
}

} // verus!
