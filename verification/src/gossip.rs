//! Tracks gossip subscribers in an open-addressed table keyed by their public keys,
//! stamped with the proof-of-history counter last seen.
use crate::data::{lemma_zero_key, zero_key, Kind, Message};
use crate::hasht::{
    doubled, find_slot, keys_match, lemma_count_used_update, lemma_find_after_store, lemma_keys_match,
    lemma_migrate_count_used, lemma_migrate_len, lemma_probe_from_in_range, lemma_store_keeps_well_placed,
    lemma_well_placed_no_merge, lemma_writes_below_len, migrate_run, no_merge, used_slots, well_placed, HashT, Key, Val,
};
use crate::result::{is_no_space, Result};
use vstd::prelude::*;

verus! {

#[derive(Copy, Clone)]
pub struct Subscriber {
    pub key: [u8; 32],
    pub addr: [u8; 4],
    pub port: u16,
    pub lastping: u64,
}

/// The subscriber in a free slot: all zeros.
pub open spec fn empty_subscriber() -> Subscriber {
    Subscriber {
        key: zero_key(),
        addr: vstd::array::spec_array_fill_for_copy_type::<u8, 4>(0u8),
        port: 0,
        lastping: 0,
    }
}

impl Default for Subscriber {
    fn default() -> (r: Subscriber)
        ensures
            r == empty_subscriber(),
    {
        let r = Subscriber { key: [0u8; 32], addr: [0u8; 4], port: 0, lastping: 0 };
        proof {
            lemma_zero_key();
            assert(r.key =~= zero_key());
            assert(r.addr =~= vstd::array::spec_array_fill_for_copy_type::<u8, 4>(0u8));
        }
        r
    }
}

impl Val<[u8; 32]> for Subscriber {
    open spec fn key_spec(&self) -> [u8; 32] {
        self.key
    }

    fn key(&self) -> (r: &[u8; 32]) {
        &self.key
    }
}

type SubT = HashT<[u8; 32], Subscriber>;

pub struct Gossip {
    pub subs: Vec<Subscriber>,
    now: u64,
    used: usize,
}

/// The subscriber table, the proof-of-history counter last seen, and how many
/// subscribers have been added.
pub struct GossipView {
    pub subs: Seq<Subscriber>,
    pub now: u64,
    pub used: nat,
}

impl View for Gossip {
    type V = GossipView;

    closed spec fn view(&self) -> GossipView {
        GossipView { subs: self.subs@, now: self.now, used: self.used as nat }
    }
}

/// A table of `n` free slots.
pub open spec fn blank_subs(n: nat) -> Seq<Subscriber> {
    Seq::new(n, |i: int| empty_subscriber())
}

/// What one message does to the gossip table.
pub enum GossipStep {
    /// The new table, the new counter, and how many subscribers the message added.
    Applied(Seq<Subscriber>, u64, nat),
    /// The subscriber's key found no slot.
    NoSpace,
}

/// One message: a `Signature` message sets the counter to its proof-of-history
/// counter; a `Subscribe` message stores the subscriber, stamped with the counter, in
/// the slot its key looks up, adding one when that slot was free; anything else
/// changes nothing.
pub open spec fn gossip_step(subs: Seq<Subscriber>, now: u64, m: Message) -> GossipStep {
    match m.kind {
        Kind::Signature => GossipStep::Applied(subs, m.poh_spec().counter, 0),
        Kind::Subscribe => {
            let s = m.sub_spec();
            match find_slot(subs, s.key) {
                Some(p) => GossipStep::Applied(
                    subs.update(p as int, subscribed(m, now)),
                    now,
                    if subs[p as int].key.unused_spec() { 1 } else { 0 },
                ),
                None => GossipStep::NoSpace,
            }
        },
        _ => GossipStep::Applied(subs, now, 0),
    }
}

/// Where a run of `Gossip::execute` ends.
pub enum GossipRun {
    Done { subs: Seq<Subscriber>, now: u64, used: nat, ok: bool },
    /// An arithmetic overflow.
    Panic,
}

/// The first `k` messages run one by one; after each, the count of added subscribers
/// grows by what it added, and when four thirds of it exceed the table size the
/// table is migrated into a blank one twice the size. A failed lookup or doubling
/// stops the run.
pub open spec fn gossip_run(subs: Seq<Subscriber>, now: u64, used: nat, msgs: Seq<Message>, k: int) -> GossipRun
    decreases k,
{
    if k <= 0 {
        GossipRun::Done { subs, now, used, ok: true }
    } else {
        match gossip_run(subs, now, used, msgs, k - 1) {
            GossipRun::Panic => GossipRun::Panic,
            GossipRun::Done { subs: s, now: t, used: u, ok } => {
                if !ok {
                    GossipRun::Done { subs: s, now: t, used: u, ok: false }
                } else {
                    match gossip_step(s, t, msgs[k - 1]) {
                        GossipStep::NoSpace => GossipRun::Done { subs: s, now: t, used: u, ok: false },
                        GossipStep::Applied(s2, t2, new) => {
                            let u2 = u + new;
                            if u2 > usize::MAX || 4 * u2 > usize::MAX {
                                GossipRun::Panic
                            } else if (4 * u2) / 3 > s2.len() {
                                if 2 * s2.len() > usize::MAX {
                                    GossipRun::Panic
                                } else {
                                    let (d, good) = migrate_run(s2, blank_subs(2 * s2.len()), s2.len() as int);
                                    if good {
                                        GossipRun::Done { subs: d, now: t2, used: u2, ok: true }
                                    } else {
                                        GossipRun::Done { subs: s2, now: t2, used: u2, ok: false }
                                    }
                                }
                            } else {
                                GossipRun::Done { subs: s2, now: t2, used: u2, ok: true }
                            }
                        },
                    }
                }
            },
        }
    }
}

fn blank_subscribers(size: usize) -> (v: Vec<Subscriber>)
    ensures
        v@ == blank_subs(size as nat),
{
    let mut v: Vec<Subscriber> = Vec::new();
    let mut i: usize = 0;
    while i < size
        invariant
            i <= size,
            v@ == blank_subs(i as nat),
        decreases size - i,
    {
        v.push(Subscriber::default());
        i += 1;
        proof {
            assert(v@ =~= blank_subs(i as nat));
        }
    }
    v
}

impl Gossip {
    /// A gossip table of `size` free slots, counter zero.
    pub fn new(size: usize) -> (g: Gossip)
        ensures
            g@.subs == blank_subs(size as nat),
            g@.now == 0,
            g@.used == 0,
    {
        Gossip { subs: blank_subscribers(size), now: 0, used: 0 }
    }

    /// The subscriber table.
    pub fn subscribers(&self) -> (r: &[Subscriber])
        ensures
            r@ == self@.subs,
    {
        self.subs.as_slice()
    }

    /// The proof-of-history counter last seen.
    pub fn now(&self) -> (r: u64)
        ensures
            r == self@.now,
    {
        self.now
    }

    /// How many subscribers have been added.
    pub fn used(&self) -> (r: usize)
        ensures
            r == self@.used,
    {
        self.used
    }

    fn double(&mut self) -> (r: Result<()>)
        requires
            old(self).subs@.len() * 2 <= usize::MAX,
        ensures
            ({
                let (d, good) = migrate_run(
                    old(self).subs@,
                    blank_subs(2 * old(self).subs@.len()),
                    old(self).subs@.len() as int,
                );
                &&& final(self).used == old(self).used
                &&& final(self).now == old(self).now
                &&& good ==> r is Ok && final(self).subs@ == d
                &&& !good ==> is_no_space(r) && final(self).subs@ == old(self).subs@
            }),
    {
        let size = self.subs.len() * 2;
        let mut v = blank_subscribers(size);
        proof {
            lemma_writes_below_len(self.subs@, size as int);
        }
        match SubT::migrate(self.subs.as_slice(), v.as_mut_slice()) {
            Ok(()) => {
                self.subs = v;
                Ok(())
            },
            Err(e) => Err(e),
        }
    }

    #[verifier::spinoff_prover]
    fn exec(&mut self, m: &Message, new: &mut usize) -> (r: Result<()>)
        requires
            gossip_step(old(self).subs@, old(self).now, *m) matches GossipStep::Applied(_, _, n) ==> *old(new) + n
                <= usize::MAX,
        ensures
            final(self).used == old(self).used,
            match gossip_step(old(self).subs@, old(self).now, *m) {
                GossipStep::Applied(s, t, n) => r is Ok && final(self).subs@ == s && final(self).now == t
                    && *final(new) == *old(new) + n,
                GossipStep::NoSpace => is_no_space(r) && final(self).subs@ == old(self).subs@
                    && final(self).now == old(self).now && *final(new) == *old(new),
            },
    {
        match m.kind {
            Kind::Signature => {
                self.now = m.get_poh().counter;
            },
            Kind::Subscribe => {
                let sub = m.get_sub();
                let slen = self.subs.len();
                let pos = match SubT::find(self.subs.as_slice(), &sub.key) {
                    Ok(p) => p,
                    Err(e) => return Err(e),
                };
                proof {
                    lemma_probe_from_in_range(self.subs@, sub.key, 0);
                }
                let now = self.now;
                let update = Subscriber { key: sub.key, addr: sub.addr, port: sub.port, lastping: now };
                if self.subs[pos].key.unused() {
                    *new = *new + 1;
                }
                self.subs.set(pos, update);
            },
            _ => return Ok(()),
        }
        Ok(())
    }

    /// Whether running `m` next would abort the program on an arithmetic
    /// overflow of the subscriber count or the table size. `execute` may be given a
    /// message only when this is false.
    #[verifier::spinoff_prover]
    pub fn would_abort(&self, m: &Message) -> (b: bool)
        ensures
            b == (gossip_run(self@.subs, self@.now, self@.used, seq![*m], 1) is Panic),
    {
        proof {
            reveal_with_fuel(gossip_run, 2);
            assert(seq![*m][0] == *m);
        }
        let len = self.subs.len();
        let mut new: usize = 0;
        if m.kind == Kind::Subscribe {
            let sub = m.get_sub();
            match SubT::find(self.subs.as_slice(), &sub.key) {
                Ok(pos) => {
                    proof {
                        lemma_probe_from_in_range(self.subs@, sub.key, 0);
                    }
                    if self.subs[pos].key.unused() {
                        new = 1;
                    }
                },
                Err(_) => return false,
            }
        }
        let used = match self.used.checked_add(new) {
            Some(u) => u,
            None => return true,
        };
        if used > usize::MAX / 4 {
            return true;
        }
        if (4 * used) / 3 > len && len > usize::MAX / 2 {
            return true;
        }
        false
    }

    /// Runs the messages one by one, as `gossip_run` describes; stops with `NoSpace`
    /// at the first failed lookup or doubling.
    #[verifier::spinoff_prover]
    pub fn execute(&mut self, msgs: &mut [Message]) -> (r: Result<()>)
        requires
            !(gossip_run(old(self)@.subs, old(self)@.now, old(self)@.used, old(msgs)@, old(msgs)@.len() as int) is Panic),
        ensures
            final(msgs)@ == old(msgs)@,
            match gossip_run(old(self)@.subs, old(self)@.now, old(self)@.used, old(msgs)@, old(msgs)@.len() as int) {
                GossipRun::Done { subs, now, used, ok } => final(self)@.subs == subs && final(self)@.now == now
                    && final(self)@.used == used && (r is Ok <==> ok) && (r is Err ==> is_no_space(r)),
                GossipRun::Panic => false,
            },
    {
        let ghost subs0 = self.subs@;
        let ghost now0 = self.now;
        let ghost used0 = self.used as nat;
        let n = msgs.len();
        let mut i: usize = 0;
        while i < n
            invariant
                i <= n,
                n == msgs@.len(),
                msgs@ == old(msgs)@,
                subs0 == old(self)@.subs,
                now0 == old(self)@.now,
                used0 == old(self)@.used,
                !(gossip_run(subs0, now0, used0, msgs@, n as int) is Panic),
                gossip_run(subs0, now0, used0, msgs@, i as int) == (GossipRun::Done {
                    subs: self.subs@,
                    now: self.now,
                    used: self.used as nat,
                    ok: true,
                }),
            decreases n - i,
        {
            proof {
                lemma_gossip_panic_persists(subs0, now0, used0, msgs@, i as int + 1, n as int);
            }
            let mut new: usize = 0;
            match self.exec(&msgs[i], &mut new) {
                Ok(()) => {},
                Err(e) => {
                    proof {
                        lemma_gossip_failure_persists(subs0, now0, used0, msgs@, i as int + 1, n as int);
                    }
                    return Err(e);
                },
            }
            self.used = self.used + new;
            if ((4 * (self.used)) / 3) > self.subs.len() {
                match self.double() {
                    Ok(()) => {},
                    Err(e) => {
                        proof {
                            lemma_gossip_failure_persists(subs0, now0, used0, msgs@, i as int + 1, n as int);
                        }
                        return Err(e);
                    },
                }
            }
            i += 1;
        }
        Ok(())
    }
}

/// Running a batch is running its messages one at a time: once the first `k`
/// messages have gone through, the next step of the batch is a run of the single
/// next message from where the batch stands.
#[verifier::spinoff_prover]
pub proof fn lemma_gossip_one_at_a_time(subs: Seq<Subscriber>, now: u64, used: nat, msgs: Seq<Message>, k: int)
    requires
        0 <= k < msgs.len(),
        gossip_run(subs, now, used, msgs, k) matches GossipRun::Done { ok, .. } && ok,
    ensures
        ({
            let prefix = gossip_run(subs, now, used, msgs, k);
            gossip_run(subs, now, used, msgs, k + 1) == gossip_run(
                prefix->subs,
                prefix->now,
                prefix->used,
                seq![msgs[k]],
                1,
            )
        }),
{
    reveal_with_fuel(gossip_run, 2);
    assert(seq![msgs[k]][0] == msgs[k]);
}

/// One message keeps the table's size, adds at most one subscriber, and adds one
/// only to a table that has a slot.
pub proof fn lemma_gossip_step_shape(subs: Seq<Subscriber>, now: u64, m: Message)
    requires
        subs.len() <= usize::MAX,
    ensures
        match gossip_step(subs, now, m) {
            GossipStep::Applied(s2, _, new) => s2.len() == subs.len() && new <= 1 && (new == 1 ==> subs.len() >= 1),
            _ => true,
        },
{
    if m.kind == Kind::Subscribe {
        lemma_probe_from_in_range(subs, m.sub_spec().key, 0);
    }
}

/// A run that goes through keeps the load bound (four thirds of the count of added
/// subscribers within the table size), and the table it ends with is the starting
/// table doubled at most once per message.
#[verifier::spinoff_prover]
pub proof fn lemma_gossip_run_keeps_load(subs: Seq<Subscriber>, now: u64, used: nat, msgs: Seq<Message>, k: int)
    requires
        subs.len() <= usize::MAX,
        4 * used / 3 <= subs.len(),
        0 <= k <= msgs.len(),
    ensures
        match gossip_run(subs, now, used, msgs, k) {
            GossipRun::Done { subs: s, used: u, ok, .. } => ok ==> 4 * u / 3 <= s.len() && s.len() <= usize::MAX
                && exists|j: nat| j <= k && s.len() == doubled(subs.len(), j),
            GossipRun::Panic => true,
        },
    decreases k,
{
    if k == 0 {
        assert(subs.len() == doubled(subs.len(), 0));
    } else {
        lemma_gossip_run_keeps_load(subs, now, used, msgs, k - 1);
        if let GossipRun::Done { subs: s, now: t, used: u, ok } = gossip_run(subs, now, used, msgs, k - 1) {
            if ok {
                let j0 = choose|j: nat| j <= k - 1 && s.len() == doubled(subs.len(), j);
                lemma_gossip_step_shape(s, t, msgs[k - 1]);
                if let GossipStep::Applied(s2, t2, new) = gossip_step(s, t, msgs[k - 1]) {
                    let u2 = u + new;
                    if u2 <= usize::MAX && 4 * u2 <= usize::MAX && (4 * u2) / 3 > s2.len() && 2 * s2.len() <= usize::MAX {
                        lemma_migrate_len(s2, blank_subs(2 * s2.len()), s2.len() as int);
                        assert(2 * s2.len() == doubled(subs.len(), j0 + 1));
                    } else {
                        assert(s2.len() == doubled(subs.len(), j0));
                    }
                }
            }
        }
    }
}

/// A batch that stops at a subscription whose key finds no slot leaves the state
/// that the messages before it reached.
pub proof fn lemma_gossip_failed_batch_keeps_prefix(
    subs: Seq<Subscriber>,
    now: u64,
    used: nat,
    msgs: Seq<Message>,
    k: int,
)
    requires
        0 <= k < msgs.len(),
        gossip_run(subs, now, used, msgs, k) matches GossipRun::Done { ok, .. } && ok,
        gossip_step(
            gossip_run(subs, now, used, msgs, k)->subs,
            gossip_run(subs, now, used, msgs, k)->now,
            msgs[k],
        ) is NoSpace,
    ensures
        ({
            let prefix = gossip_run(subs, now, used, msgs, k);
            gossip_run(subs, now, used, msgs, msgs.len() as int) == (GossipRun::Done {
                subs: prefix->subs,
                now: prefix->now,
                used: prefix->used,
                ok: false,
            })
        }),
{
    assert(gossip_run(subs, now, used, msgs, k + 1) matches GossipRun::Done { ok, .. } && !ok);
    lemma_gossip_failure_persists(subs, now, used, msgs, k + 1, msgs.len() as int);
}

pub proof fn lemma_gossip_panic_persists(
    subs: Seq<Subscriber>,
    now: u64,
    used: nat,
    msgs: Seq<Message>,
    i: int,
    k: int,
)
    requires
        i <= k,
        !(gossip_run(subs, now, used, msgs, k) is Panic),
    ensures
        !(gossip_run(subs, now, used, msgs, i) is Panic),
    decreases k - i,
{
    if i < k {
        lemma_gossip_panic_persists(subs, now, used, msgs, i, k - 1);
    }
}

pub proof fn lemma_gossip_failure_persists(
    subs: Seq<Subscriber>,
    now: u64,
    used: nat,
    msgs: Seq<Message>,
    i: int,
    k: int,
)
    requires
        i <= k,
        gossip_run(subs, now, used, msgs, i) matches GossipRun::Done { ok, .. } && !ok,
    ensures
        gossip_run(subs, now, used, msgs, k) == gossip_run(subs, now, used, msgs, i),
    decreases k - i,
{
    if i < k {
        lemma_gossip_failure_persists(subs, now, used, msgs, i, k - 1);
    }
}

/// The entry a `Subscribe` message stores when the counter is `now`.
pub open spec fn subscribed(m: Message, now: u64) -> Subscriber {
    Subscriber { key: m.sub_spec().key, addr: m.sub_spec().addr, port: m.sub_spec().port, lastping: now }
}

/// A subscription is found again: after a `Subscribe` message goes through, a lookup
/// of the subscriber's key settles on the slot it was stored in, which holds its
/// address and port stamped with the current counter.
pub proof fn lemma_subscribe_then_lookup(subs: Seq<Subscriber>, now: u64, m: Message)
    requires
        subs.len() <= usize::MAX,
        m.kind == Kind::Subscribe,
        gossip_step(subs, now, m) is Applied,
    ensures
        match gossip_step(subs, now, m) {
            GossipStep::Applied(s2, t2, _) => t2 == now && find_slot(s2, m.sub_spec().key) == find_slot(
                subs,
                m.sub_spec().key,
            ) && s2[find_slot(subs, m.sub_spec().key).unwrap() as int] == subscribed(m, now),
            GossipStep::NoSpace => false,
        },
{
    let s = m.sub_spec();
    let v = Subscriber { key: s.key, addr: s.addr, port: s.port, lastping: now };
    lemma_probe_from_in_range(subs, s.key, 0);
    lemma_find_after_store(subs, s.key, v);
}

/// A subscription to a key other than the zero key adds a subscriber exactly when it
/// fills a free slot: the number of used slots grows by what the message added.
pub proof fn lemma_gossip_step_slots(subs: Seq<Subscriber>, now: u64, m: Message)
    requires
        subs.len() <= usize::MAX,
        m.kind == Kind::Subscribe ==> !m.sub_spec().key.unused_spec(),
    ensures
        gossip_step(subs, now, m) matches GossipStep::Applied(s2, _, new) ==> used_slots(s2) == used_slots(subs)
            + new,
{
    if m.kind == Kind::Subscribe {
        let key = m.sub_spec().key;
        lemma_probe_from_in_range(subs, key, 0);
        if let Some(p) = find_slot(subs, key) {
            lemma_count_used_update(subs, p as int, subscribed(m, now), subs.len() as int);
        }
    }
}

/// No doubling among the first `k` steps of the run merges two subscribers into one
/// slot.
pub open spec fn gossip_doublings_merge_nothing(
    subs: Seq<Subscriber>,
    now: u64,
    used: nat,
    msgs: Seq<Message>,
    k: int,
) -> bool
    decreases k,
{
    if k <= 0 {
        true
    } else {
        &&& gossip_doublings_merge_nothing(subs, now, used, msgs, k - 1)
        &&& match gossip_run(subs, now, used, msgs, k - 1) {
            GossipRun::Done { subs: s, now: t, used: u, ok } => ok ==> match gossip_step(s, t, msgs[k - 1]) {
                GossipStep::Applied(s2, _, new) => (4 * (u + new)) / 3 > s2.len() ==> no_merge(s2),
                _ => true,
            },
            GossipRun::Panic => true,
        }
    }
}

/// The count of added subscribers is the number of used slots: a run that starts with
/// the two equal, and subscribes no one under the zero key, keeps them equal as long
/// as no doubling merges two subscribers into one slot.
#[verifier::spinoff_prover]
pub proof fn lemma_gossip_run_used_is_occupied(
    subs: Seq<Subscriber>,
    now: u64,
    used: nat,
    msgs: Seq<Message>,
    k: int,
)
    requires
        subs.len() <= usize::MAX,
        used == used_slots(subs),
        0 <= k <= msgs.len(),
        forall|i: int|
            0 <= i < msgs.len() && (#[trigger] msgs[i]).kind == Kind::Subscribe ==> !msgs[i].sub_spec().key.unused_spec(),
    ensures
        gossip_run(subs, now, used, msgs, k) matches GossipRun::Done { subs: s, used: u, .. } ==> s.len()
            <= usize::MAX && (gossip_doublings_merge_nothing(subs, now, used, msgs, k) ==> u == used_slots(s)),
    decreases k,
{
    if k > 0 {
        lemma_gossip_run_used_is_occupied(subs, now, used, msgs, k - 1);
        if let GossipRun::Done { subs: s, now: t, used: u, ok } = gossip_run(subs, now, used, msgs, k - 1) {
            if ok {
                let m = msgs[k - 1];
                lemma_gossip_step_shape(s, t, m);
                lemma_gossip_step_slots(s, t, m);
                if let GossipStep::Applied(s2, t2, new) = gossip_step(s, t, m) {
                    let u2 = u + new;
                    if u2 <= usize::MAX && 4 * u2 <= usize::MAX && (4 * u2) / 3 > s2.len() && 2 * s2.len() <= usize::MAX {
                        let blank = blank_subs(2 * s2.len());
                        lemma_migrate_len(s2, blank, s2.len() as int);
                        if gossip_doublings_merge_nothing(subs, now, used, msgs, k) && migrate_run(
                            s2,
                            blank,
                            s2.len() as int,
                        ).1 {
                            lemma_zero_key();
                            assert forall|i: int| 0 <= i < blank.len() implies (#[trigger] blank[i]).key_spec().unused_spec() by {}
                            lemma_migrate_count_used(s2, blank, s2.len() as int);
                        }
                    }
                }
            }
        }
    }
}

/// One message keeps every subscriber where a lookup of its key settles.
pub proof fn lemma_gossip_step_keeps_well_placed(subs: Seq<Subscriber>, now: u64, m: Message)
    requires
        subs.len() <= usize::MAX,
    ensures
        gossip_step(subs, now, m) matches GossipStep::Applied(s2, _, _) ==> (well_placed(subs) ==> well_placed(s2)),
{
    if m.kind == Kind::Subscribe && well_placed(subs) {
        let key = m.sub_spec().key;
        lemma_probe_from_in_range(subs, key, 0);
        if let GossipStep::Applied(s2, _, _) = gossip_step(subs, now, m) {
            if key.unused_spec() {
                lemma_zero_key();
                assert(keys_match(subs, s2));
                lemma_keys_match(subs, s2);
            } else {
                lemma_store_keeps_well_placed(subs, subscribed(m, now));
            }
        }
    }
}

/// Until the table grows, every subscriber sits in the one slot where a lookup of its
/// key settles: a run from a well-placed table never shrinks it, and leaves it well
/// placed when it ends at the size it started with.
#[verifier::spinoff_prover]
pub proof fn lemma_gossip_run_keeps_well_placed(
    subs: Seq<Subscriber>,
    now: u64,
    used: nat,
    msgs: Seq<Message>,
    k: int,
)
    requires
        subs.len() <= usize::MAX,
        well_placed(subs),
        0 <= k <= msgs.len(),
    ensures
        gossip_run(subs, now, used, msgs, k) matches GossipRun::Done { subs: s, .. } ==> subs.len() <= s.len()
            <= usize::MAX && (s.len() == subs.len() ==> well_placed(s)),
    decreases k,
{
    if k > 0 {
        lemma_gossip_run_keeps_well_placed(subs, now, used, msgs, k - 1);
        if let GossipRun::Done { subs: s, now: t, used: u, ok } = gossip_run(subs, now, used, msgs, k - 1) {
            if ok {
                let m = msgs[k - 1];
                lemma_gossip_step_shape(s, t, m);
                lemma_gossip_step_keeps_well_placed(s, t, m);
                if let GossipStep::Applied(s2, t2, new) = gossip_step(s, t, m) {
                    let u2 = u + new;
                    if u2 <= usize::MAX && 4 * u2 <= usize::MAX && (4 * u2) / 3 > s2.len() && 2 * s2.len() <= usize::MAX {
                        lemma_migrate_len(s2, blank_subs(2 * s2.len()), s2.len() as int);
                    }
                }
            }
        }
    }
}

/// A step of a run never shrinks the table, and a run that has not panicked after
/// `k` steps had not after `k - 1`.
proof fn lemma_gossip_run_len_step(subs: Seq<Subscriber>, now: u64, used: nat, msgs: Seq<Message>, k: int)
    requires
        0 < k <= msgs.len(),
    ensures
        gossip_run(subs, now, used, msgs, k) matches GossipRun::Done { subs: s2, .. } ==> gossip_run(subs, now, used, msgs, k - 1) matches GossipRun::Done { subs: s, .. } && (s.len() <= usize::MAX ==> s.len() <= s2.len()),
{
    if let GossipRun::Done { subs: s, now: t, used: u, ok } = gossip_run(subs, now, used, msgs, k - 1) {
        if ok && s.len() <= usize::MAX {
            lemma_gossip_step_shape(s, t, msgs[k - 1]);
            if let GossipStep::Applied(s2, _, new) = gossip_step(s, t, msgs[k - 1]) {
                let u2 = u + new;
                if u2 <= usize::MAX && 4 * u2 <= usize::MAX && (4 * u2) / 3 > s2.len() && 2 * s2.len() <= usize::MAX {
                    lemma_migrate_len(s2, blank_subs(2 * s2.len()), s2.len() as int);
                }
            }
        }
    }
}

/// The first doubling of a run from a well-placed table merges nothing: as long as
/// the table still has its starting size after `k` steps, no doubling among the first
/// `k + 1` steps merges two subscribers into one slot.
#[verifier::spinoff_prover]
pub proof fn lemma_gossip_first_doubling_merges_nothing(
    subs: Seq<Subscriber>,
    now: u64,
    used: nat,
    msgs: Seq<Message>,
    k: int,
)
    requires
        subs.len() <= usize::MAX,
        well_placed(subs),
        0 <= k < msgs.len(),
    ensures
        gossip_run(subs, now, used, msgs, k) matches GossipRun::Done { subs: s, .. } && s.len() == subs.len()
            ==> gossip_doublings_merge_nothing(subs, now, used, msgs, k + 1),
    decreases k,
{
    lemma_gossip_run_keeps_well_placed(subs, now, used, msgs, k);
    if let GossipRun::Done { subs: s, now: t, used: u, ok } = gossip_run(subs, now, used, msgs, k) {
        if s.len() == subs.len() {
            assert(gossip_doublings_merge_nothing(subs, now, used, msgs, k)) by {
                if k > 0 {
                    lemma_gossip_run_keeps_well_placed(subs, now, used, msgs, k - 1);
                    lemma_gossip_run_len_step(subs, now, used, msgs, k);
                    lemma_gossip_first_doubling_merges_nothing(subs, now, used, msgs, k - 1);
                }
            }
            assert(ok ==> match gossip_step(s, t, msgs[k]) {
                GossipStep::Applied(s2, _, new) => (4 * (u + new)) / 3 > s2.len() ==> no_merge(s2),
                _ => true,
            }) by {
                lemma_gossip_step_keeps_well_placed(s, t, msgs[k]);
                lemma_gossip_step_shape(s, t, msgs[k]);
                if let GossipStep::Applied(s2, _, _) = gossip_step(s, t, msgs[k]) {
                    lemma_well_placed_no_merge(s2);
                }
            }
        }
    }
}

/// Gossip looks only at `Signature` and `Subscribe` messages: any other message
/// leaves the table, the counter and the count of added subscribers as they were.
pub proof fn lemma_gossip_ignores_other_kinds(subs: Seq<Subscriber>, now: u64, m: Message)
    requires
        m.kind != Kind::Signature,
        m.kind != Kind::Subscribe,
    ensures
        gossip_step(subs, now, m) == GossipStep::Applied(subs, now, 0),
{
}

/// A `Signature` message sets the counter to its proof-of-history counter and leaves
/// the table and the count of added subscribers as they were.
pub proof fn lemma_signature_sets_counter(subs: Seq<Subscriber>, now: u64, m: Message)
    requires
        m.kind == Kind::Signature,
    ensures
        gossip_step(subs, now, m) == GossipStep::Applied(subs, m.poh_spec().counter, 0),
{
}

/// A `Subscribe` message keeps the counter, changes only the slot its key looks up,
/// which then holds the subscriber's key, address and port stamped with the counter,
/// and adds one subscriber exactly when that slot was free.
pub proof fn lemma_subscribe_stores(subs: Seq<Subscriber>, now: u64, m: Message, p: usize)
    requires
        subs.len() <= usize::MAX,
        m.kind == Kind::Subscribe,
        find_slot(subs, m.sub_spec().key) == Some(p),
    ensures
        gossip_step(subs, now, m) matches GossipStep::Applied(s2, t2, n) && {
            &&& t2 == now
            &&& s2.len() == subs.len()
            &&& forall|i: int| 0 <= i < subs.len() && i != p ==> s2[i] == subs[i]
            &&& s2[p as int].key == m.sub_spec().key
            &&& s2[p as int].addr == m.sub_spec().addr
            &&& s2[p as int].port == m.sub_spec().port
            &&& s2[p as int].lastping == now
            &&& n == if subs[p as int].key.unused_spec() { 1nat } else { 0nat }
        },
{
    lemma_probe_from_in_range(subs, m.sub_spec().key, 0);
}

} // verus!
