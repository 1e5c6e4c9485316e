//! Open-addressed hash tables kept in plain slices: a key is looked up by linear
//! probing from the slot its `start` names, and a slot whose key is `unused` is free.
use crate::result::{LoomError, Result};
use core::marker::PhantomData;
use vstd::prelude::*;

verus! {

/// A key of a table.
pub trait Key: Eq + Sized {
    /// Where probing for the key begins (before reduction modulo the table size).
    spec fn start_spec(&self) -> usize;

    /// Whether the key marks a free slot.
    spec fn unused_spec(&self) -> bool;

    fn start(&self) -> (r: usize)
        ensures
            r == self.start_spec(),
    ;

    fn unused(&self) -> (r: bool)
        ensures
            r == self.unused_spec(),
    ;

    /// Key equality.
    fn same(&self, other: &Self) -> (r: bool)
        ensures
            r == (*self == *other),
    ;
}

/// An item of a table, stored under its key.
pub trait Val<T: Key>: Sized + Copy {
    spec fn key_spec(&self) -> T;

    fn key(&self) -> (r: &T)
        ensures
            *r == self.key_spec(),
    ;
}

/// Table operations over items `V` keyed by `K`.
pub struct HashT<K: Key, V: Val<K>> {
    _key: PhantomData<K>,
    _val: PhantomData<V>,
}

/// The slot visited at step `i` of a probe that starts at `start` in a table of `n`
/// slots: `start + i`, wrapping at the width of `usize`, taken modulo `n`.
pub open spec fn probe(start: usize, i: int, n: int) -> int {
    let s = start + i;
    (if s > usize::MAX { s - (usize::MAX + 1) } else { s }) % n
}

/// Slot `pos` can take `key`: it is free, or it already holds `key`.
pub open spec fn takes<K: Key, V: Val<K>>(tbl: Seq<V>, key: K, pos: int) -> bool {
    tbl[pos].key_spec().unused_spec() || tbl[pos].key_spec() == key
}

/// The first slot, from probe step `j` on, that can take `key`.
pub open spec fn probe_from<K: Key, V: Val<K>>(tbl: Seq<V>, key: K, j: int) -> Option<usize>
    decreases tbl.len() - j,
{
    if j < 0 || j >= tbl.len() {
        None
    } else {
        let p = probe(key.start_spec(), j, tbl.len() as int);
        if takes(tbl, key, p) {
            Some(p as usize)
        } else {
            probe_from(tbl, key, j + 1)
        }
    }
}

/// The slot that a lookup of `key` settles on, if any of the `tbl.len()` probes finds
/// one that can take it.
pub open spec fn find_slot<K: Key, V: Val<K>>(tbl: Seq<V>, key: K) -> Option<usize> {
    probe_from(tbl, key, 0)
}

pub open spec fn find_spec<K: Key, V: Val<K>>(tbl: Seq<V>, key: K) -> Result<usize> {
    match find_slot(tbl, key) {
        Some(p) => Ok(p),
        None => Err(LoomError::NoSpace),
    }
}

/// The destination table, and whether all went well, after `migrate` has gone
/// through the first `i` items of `src`: each used item is written to the slot that
/// a lookup of its key in `src` settles on, and the first lookup that fails stops it.
pub open spec fn migrate_run<K: Key, V: Val<K>>(src: Seq<V>, dst: Seq<V>, i: int) -> (Seq<V>, bool)
    decreases i,
{
    if i <= 0 {
        (dst, true)
    } else {
        let (d, ok) = migrate_run(src, dst, i - 1);
        let item = src[i - 1];
        if !ok {
            (d, false)
        } else if item.key_spec().unused_spec() {
            (d, true)
        } else {
            match find_slot(src, item.key_spec()) {
                Some(p) => (d.update(p as int, item), true),
                None => (d, false),
            }
        }
    }
}

/// Every used item among the first `k` of `src` has a slot that a lookup of its key
/// settles on.
pub open spec fn lookups_succeed<K: Key, V: Val<K>>(src: Seq<V>, k: int) -> bool {
    forall|j: int|
        0 <= j < k && !(#[trigger] src[j]).key_spec().unused_spec() ==> find_slot(src, src[j].key_spec()) is Some
}

/// Every slot that `migrate` writes lies below `n`: the slot of each used item that
/// the migration reaches, that is, each whose earlier used items all have slots.
#[verifier::opaque]
pub open spec fn migrate_writes_below<K: Key, V: Val<K>>(src: Seq<V>, n: int) -> bool {
    forall|i: int|
        0 <= i < src.len() && lookups_succeed(src, i) && !(#[trigger] src[i]).key_spec().unused_spec()
            ==> (find_slot(src, src[i].key_spec()) matches Some(p) ==> p < n)
}

/// A destination at least as long as the source takes every write of a migration.
pub proof fn lemma_writes_below_len<K: Key, V: Val<K>>(src: Seq<V>, n: int)
    requires
        src.len() <= n,
        src.len() <= usize::MAX,
    ensures
        migrate_writes_below(src, n),
{
    reveal(migrate_writes_below);
    assert forall|i: int|
        0 <= i < src.len() && lookups_succeed(src, i) && !(#[trigger] src[i]).key_spec().unused_spec()
            implies (find_slot(src, src[i].key_spec()) matches Some(p) ==> p < n) by {
        lemma_probe_from_in_range(src, src[i].key_spec(), 0);
    }
}

/// The migration has gone through the first `k` items exactly when their lookups all
/// succeed.
pub proof fn lemma_migrate_ok<K: Key, V: Val<K>>(src: Seq<V>, dst: Seq<V>, k: int)
    requires
        0 <= k <= src.len(),
    ensures
        migrate_run(src, dst, k).1 <==> lookups_succeed(src, k),
    decreases k,
{
    if k > 0 {
        lemma_migrate_ok(src, dst, k - 1);
        if !lookups_succeed(src, k - 1) {
            lemma_migrate_stays_failed(src, dst, k - 1, k);
        }
        assert(lookups_succeed(src, k) <==> (lookups_succeed(src, k - 1) && (!src[k - 1].key_spec().unused_spec()
            ==> find_slot(src, src[k - 1].key_spec()) is Some)));
    }
}

impl<K: Key, V: Val<K>> HashT<K, V> {
    /// The slot for `key`: the first slot on its probe sequence that is free or
    /// already holds `key`; `NoSpace` when none of the `tbl.len()` probes finds one.
    pub fn find(tbl: &[V], key: &K) -> (r: Result<usize>)
        ensures
            r == find_spec(tbl@, *key),
    {
        let num_elems = tbl.len();
        let st = key.start();
        let mut i: usize = 0;
        while i < num_elems
            invariant
                i <= num_elems,
                num_elems == tbl@.len(),
                st == key.start_spec(),
                probe_from(tbl@, *key, i as int) == find_slot(tbl@, *key),
            decreases num_elems - i,
        {
            let pos = st.wrapping_add(i) % num_elems;
            assert(pos == probe(st, i as int, num_elems as int));
            let k = tbl[pos].key();
            if k.unused() || k.same(key) {
                return Ok(pos);
            }
            i += 1;
        }
        Err(LoomError::NoSpace)
    }

    /// Copies every used item of `src` into `dst`, at the slot a lookup of its key in
    /// `src` settles on; stops with `NoSpace` at the first lookup that fails.
    pub fn migrate(src: &[V], dst: &mut [V]) -> (r: Result<()>)
        requires
            migrate_writes_below(src@, old(dst)@.len() as int),
        ensures
            final(dst)@ == migrate_run(src@, old(dst)@, src@.len() as int).0,
            r is Ok <==> migrate_run(src@, old(dst)@, src@.len() as int).1,
            r is Err ==> r == Err::<(), LoomError>(LoomError::NoSpace),
    {
        let mut idx: usize = 0;
        while idx < src.len()
            invariant
                idx <= src@.len(),
                dst@.len() == old(dst)@.len(),
                migrate_writes_below(src@, old(dst)@.len() as int),
                (dst@, true) == migrate_run(src@, old(dst)@, idx as int),
            decreases src@.len() - idx,
        {
            let item = src[idx];
            proof {
                reveal_with_fuel(migrate_run, 2);
                lemma_migrate_ok(src@, old(dst)@, idx as int);
                assert(src@[idx as int] == item);
                reveal(migrate_writes_below);
            }
            if !item.key().unused() {
                match Self::find(src, item.key()) {
                    Ok(p) => {
                        proof {
                            lemma_probe_from_in_range(src@, item.key_spec(), 0);
                        }
                        dst[p] = item;
                    },
                    Err(e) => {
                        proof {
                            lemma_migrate_stays_failed(src@, old(dst)@, idx as int + 1, src@.len() as int);
                        }
                        return Err(e);
                    },
                }
            }
            idx += 1;
        }
        Ok(())
    }
}

/// A slot that a probe settles on lies in the table and can take the key.
pub proof fn lemma_probe_from_in_range<K: Key, V: Val<K>>(tbl: Seq<V>, key: K, j: int)
    requires
        tbl.len() <= usize::MAX,
    ensures
        probe_from(tbl, key, j) matches Some(p) ==> 0 <= p < tbl.len() && takes(tbl, key, p as int),
    decreases tbl.len() - j,
{
    if 0 <= j < tbl.len() {
        let p = probe(key.start_spec(), j, tbl.len() as int);
        lemma_probe_range(key.start_spec(), j, tbl.len() as int);
        if !takes(tbl, key, p) {
            lemma_probe_from_in_range(tbl, key, j + 1);
        }
    }
}

/// Every probe step lands inside the table.
pub proof fn lemma_probe_range(start: usize, i: int, n: int)
    requires
        0 <= i,
        0 < n,
    ensures
        0 <= probe(start, i, n) < n,
{
    let s = start + i;
    let w = if s > usize::MAX { s - (usize::MAX + 1) } else { s };
    vstd::arithmetic::div_mod::lemma_mod_pos_bound(w, n);
}

/// Once the migration has failed, it stays failed and writes nothing more.
pub proof fn lemma_migrate_stays_failed<K: Key, V: Val<K>>(src: Seq<V>, dst: Seq<V>, i: int, k: int)
    requires
        i <= k,
        !migrate_run(src, dst, i).1,
    ensures
        migrate_run(src, dst, k) == migrate_run(src, dst, i),
    decreases k - i,
{
    if i < k {
        lemma_migrate_stays_failed(src, dst, i, k - 1);
    }
}

/// A lookup settles on the same slot from any probe step up to the first that
/// can take the key.
proof fn lemma_probe_from_store<K: Key, V: Val<K>>(tbl: Seq<V>, key: K, v: V, p: usize, j: int)
    requires
        tbl.len() <= usize::MAX,
        probe_from(tbl, key, j) == Some(p),
        v.key_spec() == key,
    ensures
        probe_from(tbl.update(p as int, v), key, j) == Some(p),
    decreases tbl.len() - j,
{
    let n = tbl.len() as int;
    let t2 = tbl.update(p as int, v);
    lemma_probe_from_in_range(tbl, key, j);
    let q = probe(key.start_spec(), j, n);
    lemma_probe_range(key.start_spec(), j, n);
    if !takes(tbl, key, q) {
        assert(q != p);
        assert(t2[q] == tbl[q]);
        lemma_probe_from_store(tbl, key, v, p, j + 1);
    } else {
        assert(takes(t2, key, q));
    }
}

/// Storing an item under `key` in the slot a lookup of `key` settles on makes the
/// next lookup of `key` settle on that slot again.
pub proof fn lemma_find_after_store<K: Key, V: Val<K>>(tbl: Seq<V>, key: K, v: V)
    requires
        tbl.len() <= usize::MAX,
        find_slot(tbl, key) is Some,
        v.key_spec() == key,
    ensures
        find_slot(tbl.update(find_slot(tbl, key).unwrap() as int, v), key) == find_slot(tbl, key),
{
    lemma_probe_from_store(tbl, key, v, find_slot(tbl, key).unwrap(), 0);
}

proof fn lemma_probe_from_store_other<K: Key, V: Val<K>>(
    tbl: Seq<V>,
    key: K,
    v: V,
    p: usize,
    other: K,
    p2: usize,
    j: int,
)
    requires
        tbl.len() <= usize::MAX,
        0 <= p < tbl.len(),
        takes(tbl, key, p as int),
        v.key_spec() == key,
        probe_from(tbl, other, j) == Some(p2),
        tbl[p2 as int].key_spec() == other,
        !other.unused_spec(),
        other != key,
    ensures
        probe_from(tbl.update(p as int, v), other, j) == Some(p2),
    decreases tbl.len() - j,
{
    let n = tbl.len() as int;
    let t2 = tbl.update(p as int, v);
    lemma_probe_from_in_range(tbl, other, j);
    let q = probe(other.start_spec(), j, n);
    lemma_probe_range(other.start_spec(), j, n);
    assert(p != p2);
    if takes(tbl, other, q) {
        assert(t2[q] == tbl[q]);
    } else {
        if q == p {
            assert(tbl[p as int].key_spec() == key);
            assert(!takes(t2, other, q));
        } else {
            assert(t2[q] == tbl[q]);
        }
        lemma_probe_from_store_other(tbl, key, v, p, other, p2, j + 1);
    }
}

/// Storing an item under `key` where a lookup of `key` settles leaves the lookup of
/// any other key that is present (and not the free-slot key) where it was.
pub proof fn lemma_store_keeps_other<K: Key, V: Val<K>>(tbl: Seq<V>, key: K, v: V, other: K)
    requires
        tbl.len() <= usize::MAX,
        find_slot(tbl, key) is Some,
        v.key_spec() == key,
        find_slot(tbl, other) is Some,
        tbl[find_slot(tbl, other).unwrap() as int].key_spec() == other,
        !other.unused_spec(),
        other != key,
    ensures
        find_slot(tbl.update(find_slot(tbl, key).unwrap() as int, v), other) == find_slot(tbl, other),
{
    lemma_probe_from_in_range(tbl, key, 0);
    lemma_probe_from_store_other(
        tbl,
        key,
        v,
        find_slot(tbl, key).unwrap(),
        other,
        find_slot(tbl, other).unwrap(),
        0,
    );
}

/// A probe that settles nowhere from step `j` on passed only slots that could not
/// take the key.
proof fn lemma_probe_from_none<K: Key, V: Val<K>>(tbl: Seq<V>, key: K, j: int, i: int)
    requires
        0 <= j <= i < tbl.len(),
        probe_from(tbl, key, j) is None,
    ensures
        !takes(tbl, key, probe(key.start_spec(), i, tbl.len() as int)),
    decreases i - j,
{
    if j < i {
        lemma_probe_from_none(tbl, key, j + 1, i);
    }
}

/// A probe step is the plain sum of start and step modulo the table size when the
/// sum does not pass `usize::MAX`, or when the table size divides the width of `usize`.
proof fn lemma_probe_plain(start: usize, i: int, n: int)
    requires
        0 < n,
        0 <= i,
        start + i <= usize::MAX || (usize::MAX + 1) % n == 0,
    ensures
        probe(start, i, n) == (start + i) % n,
{
    let s = start + i;
    if s > usize::MAX {
        let m = usize::MAX + 1;
        vstd::arithmetic::div_mod::lemma_fundamental_div_mod(m, n);
        let a = -(m / n);
        assert(n * a + s == s - m) by (nonlinear_arith)
            requires
                m == n * (m / n) + m % n,
                m % n == 0,
                a == -(m / n),
        ;
        vstd::arithmetic::div_mod::lemma_mod_multiples_vanish(a, s, n);
    }
}

/// When the probe sequence does not wrap past `usize::MAX`, or the table size divides
/// the width of `usize` (a power of two), it visits every slot, so a lookup fails only
/// when no slot is free and none holds the key.
#[verifier::spinoff_prover]
pub proof fn lemma_find_fails_only_when_full<K: Key, V: Val<K>>(tbl: Seq<V>, key: K)
    requires
        key.start_spec() + tbl.len() <= usize::MAX + 1 || (usize::MAX + 1) % (tbl.len() as int) == 0,
        find_slot(tbl, key) is None,
    ensures
        forall|pos: int| 0 <= pos < tbl.len() ==> !takes(tbl, key, pos),
{
    let n = tbl.len() as int;
    let st = key.start_spec() as int;
    assert forall|pos: int| 0 <= pos < n implies !takes(tbl, key, pos) by {
        let r = st % n;
        vstd::arithmetic::div_mod::lemma_fundamental_div_mod(st, n);
        vstd::arithmetic::div_mod::lemma_mod_pos_bound(st, n);
        let i = if pos >= r { pos - r } else { pos - r + n };
        let k = if pos >= r { st / n } else { st / n + 1 };
        assert(st + i == n * k + pos) by (nonlinear_arith)
            requires
                st == n * (st / n) + r,
                i == (if pos >= r { pos - r } else { pos - r + n }),
                k == (if pos >= r { st / n } else { st / n + 1 }),
        ;
        vstd::arithmetic::div_mod::lemma_mod_multiples_vanish(k, pos, n);
        vstd::arithmetic::div_mod::lemma_small_mod(pos as nat, n as nat);
        lemma_probe_plain(key.start_spec(), i, n);
        assert(probe(key.start_spec(), i, n) == pos);
        lemma_probe_from_none(tbl, key, 0, i);
    }
}

/// Every used item of `src` sits at the slot a lookup of its key settles on.
pub open spec fn well_placed<K: Key, V: Val<K>>(src: Seq<V>) -> bool {
    forall|i: int|
        0 <= i < src.len() && !(#[trigger] src[i]).key_spec().unused_spec() ==> find_slot(
            src,
            src[i].key_spec(),
        ) == Some(i as usize)
}

/// What `dst` looks like once the used items among the first `k` of `src` are copied
/// to their own slots.
pub open spec fn placed_copy<K: Key, V: Val<K>>(src: Seq<V>, dst: Seq<V>, k: int) -> Seq<V> {
    Seq::new(
        dst.len(),
        |i: int|
            if i < k && i < src.len() && !src[i].key_spec().unused_spec() {
                src[i]
            } else {
                dst[i]
            },
    )
}

/// Migrating a table whose items are all where their lookups settle succeeds and
/// copies each used item to the same slot of the destination.
#[verifier::spinoff_prover]
pub proof fn lemma_migrate_keeps_placed<K: Key, V: Val<K>>(src: Seq<V>, dst: Seq<V>, k: int)
    requires
        well_placed(src),
        src.len() <= usize::MAX,
        dst.len() >= src.len(),
        0 <= k <= src.len(),
    ensures
        migrate_run(src, dst, k) == (placed_copy(src, dst, k), true),
    decreases k,
{
    if k == 0 {
        assert(placed_copy(src, dst, 0) =~= dst);
    } else {
        lemma_migrate_keeps_placed(src, dst, k - 1);
        let prev = placed_copy(src, dst, k - 1);
        let next = placed_copy(src, dst, k);
        let item = src[k - 1];
        if !item.key_spec().unused_spec() {
            assert(find_slot(src, item.key_spec()) == Some((k - 1) as usize));
            assert forall|i: int| 0 <= i < next.len() implies #[trigger] next[i] == prev.update(k - 1, item)[i] by {
                if i != k - 1 {
                    assert(next[i] == prev[i]);
                }
            }
            assert(prev.update(k - 1, item) =~= next);
        } else {
            assert forall|i: int| 0 <= i < next.len() implies #[trigger] next[i] == prev[i] by {}
            assert(prev =~= next);
        }
    }
}

/// A table of free slots is well placed.
pub proof fn lemma_blank_well_placed<K: Key, V: Val<K>>(tbl: Seq<V>)
    requires
        forall|i: int| 0 <= i < tbl.len() ==> (#[trigger] tbl[i]).key_spec().unused_spec(),
    ensures
        well_placed(tbl),
{
}

/// Storing an item under a used key where the key's lookup settles keeps a table
/// well placed: every table built from free slots that way finds each of its used
/// keys where it sits.
#[verifier::spinoff_prover]
pub proof fn lemma_store_keeps_well_placed<K: Key, V: Val<K>>(tbl: Seq<V>, v: V)
    requires
        tbl.len() <= usize::MAX,
        well_placed(tbl),
        !v.key_spec().unused_spec(),
        find_slot(tbl, v.key_spec()) is Some,
    ensures
        well_placed(tbl.update(find_slot(tbl, v.key_spec()).unwrap() as int, v)),
{
    let key = v.key_spec();
    let p = find_slot(tbl, key).unwrap() as int;
    let t2 = tbl.update(p, v);
    lemma_probe_from_in_range(tbl, key, 0);
    lemma_find_after_store(tbl, key, v);
    assert forall|i: int| 0 <= i < t2.len() && !(#[trigger] t2[i]).key_spec().unused_spec() implies find_slot(
        t2,
        t2[i].key_spec(),
    ) == Some(i as usize) by {
        if i != p {
            let other = tbl[i].key_spec();
            assert(t2[i] == tbl[i]);
            assert(find_slot(tbl, other) == Some(i as usize));
            if other == key {
                assert(i == p);
            } else {
                lemma_store_keeps_other(tbl, key, v, other);
            }
        }
    }
}

/// In a well-placed table each used key sits in one slot only.
pub proof fn lemma_well_placed_unique<K: Key, V: Val<K>>(tbl: Seq<V>, i: int, j: int)
    requires
        well_placed(tbl),
        0 <= i < tbl.len(),
        0 <= j < tbl.len(),
        !tbl[i].key_spec().unused_spec(),
        tbl[i].key_spec() == tbl[j].key_spec(),
        tbl.len() <= usize::MAX,
    ensures
        i == j,
{
    assert(find_slot(tbl, tbl[i].key_spec()) == Some(i as usize));
    assert(find_slot(tbl, tbl[j].key_spec()) == Some(j as usize));
}

/// Two tables of one size whose slots hold the same keys, whatever else they hold.
pub open spec fn keys_match<K: Key, V: Val<K>>(t1: Seq<V>, t2: Seq<V>) -> bool {
    t1.len() == t2.len() && forall|i: int| 0 <= i < t1.len() ==> (#[trigger] t1[i]).key_spec() == t2[i].key_spec()
}

proof fn lemma_keys_match_probe<K: Key, V: Val<K>>(t1: Seq<V>, t2: Seq<V>, key: K, j: int)
    requires
        keys_match(t1, t2),
    ensures
        probe_from(t1, key, j) == probe_from(t2, key, j),
    decreases t1.len() - j,
{
    if 0 <= j < t1.len() {
        let p = probe(key.start_spec(), j, t1.len() as int);
        lemma_probe_range(key.start_spec(), j, t1.len() as int);
        assert(t1[p].key_spec() == t2[p].key_spec());
        lemma_keys_match_probe(t1, t2, key, j + 1);
    }
}

/// Lookups see only keys: tables with the same keys settle every lookup on the same
/// slot, and one is well placed when the other is.
pub proof fn lemma_keys_match<K: Key, V: Val<K>>(t1: Seq<V>, t2: Seq<V>)
    requires
        keys_match(t1, t2),
    ensures
        forall|key: K| #[trigger] find_slot(t1, key) == find_slot(t2, key),
        well_placed(t1) ==> well_placed(t2),
{
    assert forall|key: K| #[trigger] find_slot(t1, key) == find_slot(t2, key) by {
        lemma_keys_match_probe(t1, t2, key, 0);
    }
    if well_placed(t1) {
        assert forall|i: int| 0 <= i < t2.len() && !(#[trigger] t2[i]).key_spec().unused_spec() implies find_slot(
            t2,
            t2[i].key_spec(),
        ) == Some(i as usize) by {
            assert(t1[i].key_spec() == t2[i].key_spec());
        }
    }
}

/// No two used items of `src` have lookups that settle on one slot, so migrating
/// `src` writes each of them to a slot of its own.
pub open spec fn no_merge<K: Key, V: Val<K>>(src: Seq<V>) -> bool {
    forall|i: int, j: int|
        0 <= i < src.len() && 0 <= j < src.len() && i != j && !(#[trigger] src[i]).key_spec().unused_spec()
            && !(#[trigger] src[j]).key_spec().unused_spec() ==> (find_slot(src, src[i].key_spec()) matches Some(
            p,
        ) ==> find_slot(src, src[j].key_spec()) != Some(p))
}

/// A well-placed table merges nothing when it is migrated.
pub proof fn lemma_well_placed_no_merge<K: Key, V: Val<K>>(src: Seq<V>)
    requires
        well_placed(src),
        src.len() <= usize::MAX,
    ensures
        no_merge(src),
{
    assert forall|i: int, j: int|
        0 <= i < src.len() && 0 <= j < src.len() && i != j && !(#[trigger] src[i]).key_spec().unused_spec()
            && !(#[trigger] src[j]).key_spec().unused_spec() implies (find_slot(src, src[i].key_spec()) matches Some(
            p,
        ) ==> find_slot(src, src[j].key_spec()) != Some(p)) by {
        assert(find_slot(src, src[i].key_spec()) == Some(i as usize));
        assert(find_slot(src, src[j].key_spec()) == Some(j as usize));
    }
}

/// How many of the first `k` slots hold a used key.
pub open spec fn count_used<K: Key, V: Val<K>>(t: Seq<V>, k: int) -> nat
    decreases k,
{
    if k <= 0 {
        0
    } else {
        count_used(t, k - 1) + if t[k - 1].key_spec().unused_spec() { 0nat } else { 1nat }
    }
}

/// The number of slots of the table that hold a used key.
pub open spec fn used_slots<K: Key, V: Val<K>>(t: Seq<V>) -> nat {
    count_used(t, t.len() as int)
}

/// Writing one slot changes the count of used slots by what the slot held and what
/// it holds now.
pub proof fn lemma_count_used_update<K: Key, V: Val<K>>(t: Seq<V>, i: int, a: V, k: int)
    requires
        0 <= i < t.len(),
        0 <= k <= t.len(),
    ensures
        count_used(t.update(i, a), k) == count_used(t, k) + (if i < k {
            (if a.key_spec().unused_spec() { 0int } else { 1int }) - (if t[i].key_spec().unused_spec() {
                0int
            } else {
                1int
            })
        } else {
            0int
        }),
    decreases k,
{
    if k > 0 {
        lemma_count_used_update(t, i, a, k - 1);
    }
}

/// Migrating a table that merges nothing into a table of free slots: every slot the
/// first `k` items changed took a used item whose lookup settles there, and the
/// destination ends with as many used slots as those items hold.
#[verifier::spinoff_prover]
pub proof fn lemma_migrate_count_used<K: Key, V: Val<K>>(src: Seq<V>, dst: Seq<V>, k: int)
    requires
        src.len() <= dst.len() <= usize::MAX,
        0 <= k <= src.len(),
        forall|i: int| 0 <= i < dst.len() ==> (#[trigger] dst[i]).key_spec().unused_spec(),
        no_merge(src),
        migrate_run(src, dst, k).1,
    ensures
        ({
            let d = migrate_run(src, dst, k).0;
            &&& d.len() == dst.len()
            &&& forall|p: int|
                0 <= p < d.len() && #[trigger] d[p] != dst[p] ==> exists|i: int|
                    0 <= i < k && !src[i].key_spec().unused_spec() && find_slot(src, src[i].key_spec()) == Some(
                        p as usize,
                    )
            &&& count_used(d, d.len() as int) == count_used(src, k)
        }),
    decreases k,
{
    if k == 0 {
        lemma_count_free(dst, dst.len() as int);
    } else {
        if !migrate_run(src, dst, k - 1).1 {
            lemma_migrate_stays_failed(src, dst, k - 1, k);
        }
        lemma_migrate_count_used(src, dst, k - 1);
        let d0 = migrate_run(src, dst, k - 1).0;
        let d = migrate_run(src, dst, k).0;
        let item = src[k - 1];
        if !item.key_spec().unused_spec() {
            lemma_probe_from_in_range(src, item.key_spec(), 0);
            let p = find_slot(src, item.key_spec()).unwrap() as int;
            assert(d == d0.update(p, item));
            if d0[p] != dst[p] {
                let i = choose|i: int|
                    0 <= i < k - 1 && !src[i].key_spec().unused_spec() && find_slot(src, src[i].key_spec())
                        == Some(p as usize);
                assert(false);
            }
            lemma_count_used_update(d0, p, item, d0.len() as int);
            assert forall|q: int| 0 <= q < d.len() && #[trigger] d[q] != dst[q] implies exists|i: int|
                0 <= i < k && !src[i].key_spec().unused_spec() && find_slot(src, src[i].key_spec()) == Some(
                    q as usize,
                ) by {
                if q == p {
                    assert(!src[k - 1].key_spec().unused_spec() && find_slot(src, src[k - 1].key_spec()) == Some(
                        q as usize,
                    ));
                } else {
                    assert(d[q] == d0[q]);
                }
            }
        } else {
            assert(d == d0);
        }
    }
}

proof fn lemma_count_free<K: Key, V: Val<K>>(t: Seq<V>, k: int)
    requires
        0 <= k <= t.len(),
        forall|i: int| 0 <= i < t.len() ==> (#[trigger] t[i]).key_spec().unused_spec(),
    ensures
        count_used(t, k) == 0,
    decreases k,
{
    if k > 0 {
        lemma_count_free(t, k - 1);
    }
}

/// `n` doubled `j` times.
pub open spec fn doubled(n: nat, j: nat) -> nat
    decreases j,
{
    if j == 0 {
        n
    } else {
        2 * doubled(n, (j - 1) as nat)
    }
}

/// A migration leaves the destination as long as it was.
pub proof fn lemma_migrate_len<K: Key, V: Val<K>>(src: Seq<V>, dst: Seq<V>, k: int)
    requires
        src.len() <= usize::MAX,
        dst.len() >= src.len(),
        k <= src.len(),
    ensures
        migrate_run(src, dst, k).0.len() == dst.len(),
    decreases k,
{
    if k > 0 {
        lemma_migrate_len(src, dst, k - 1);
        lemma_probe_from_in_range(src, src[k - 1].key_spec(), 0);
    }
}

impl Key for usize {
    open spec fn start_spec(&self) -> usize {
        *self
    }

    open spec fn unused_spec(&self) -> bool {
        *self == 0
    }

    fn start(&self) -> (r: usize) {
        *self
    }

    fn unused(&self) -> (r: bool) {
        *self == 0
    }

    fn same(&self, other: &Self) -> (r: bool) {
        *self == *other
    }
}

impl Val<usize> for usize {
    open spec fn key_spec(&self) -> usize {
        *self
    }

    fn key(&self) -> (r: &usize) {
        self
    }
}

} // verus!
