use loom::data::{Account, AccountT};
use loom::hasht::{HashT, Key};
use loom::result::LoomError;

type UsizeT = HashT<usize, usize>;

#[test]
fn hash_test() {
    let v = vec![0usize; 0];
    let r = UsizeT::find(&v, &1usize);
    assert_eq!(r.unwrap_err(), LoomError::NoSpace);
}

#[test]
fn hash_test2() {
    let v = vec![0usize; 1];
    let r = UsizeT::find(&v, &1usize);
    assert_eq!(r.unwrap(), 0);
}

#[test]
fn hash_test3() {
    let mut v = vec![0usize; 1];
    let a = UsizeT::find(&v, &1usize).expect("find 1");
    v[a] = 1;
    let b = UsizeT::find(&v, &2usize);
    assert_eq!(b.unwrap_err(), LoomError::NoSpace);
}

#[test]
fn hash_test4() {
    let mut v = vec![0usize; 2];
    let a = UsizeT::find(&v, &1usize).expect("find 1");
    v[a] = 1;
    let b = UsizeT::find(&v, &2usize).expect("find 2");
    assert_ne!(a, b);
    v[b] = 2;
    assert_eq!(UsizeT::find(&v, &1usize).unwrap(), a);
    assert_eq!(UsizeT::find(&v, &2usize).unwrap(), b);
    assert_eq!(UsizeT::find(&v, &3usize).unwrap_err(), LoomError::NoSpace);
    assert_eq!(
        UsizeT::find(&v, &usize::max_value()).unwrap_err(),
        LoomError::NoSpace
    );
}

#[test]
fn find_probes_from_start_modulo_size() {
    // key 7 in a table of 4 starts at slot 3; slot 3 is taken, so it wraps to 0
    let v = vec![0usize, 5, 6, 9];
    assert_eq!(UsizeT::find(&v, &7usize).unwrap(), 0);
    // key 9 is found where it sits
    assert_eq!(UsizeT::find(&v, &9usize).unwrap(), 3);
}

#[test]
fn find_after_store_finds_same_slot() {
    let mut v = vec![0usize; 5];
    for k in [3usize, 8, 13, 4] {
        let p = UsizeT::find(&v, &k).unwrap();
        v[p] = k;
        assert_eq!(UsizeT::find(&v, &k).unwrap(), p);
    }
    // earlier keys are still found where they were stored
    assert_eq!(UsizeT::find(&v, &3usize).unwrap(), 3);
    assert_eq!(UsizeT::find(&v, &8usize).unwrap(), 4);
    assert_eq!(UsizeT::find(&v, &13usize).unwrap(), 0);
    assert_eq!(UsizeT::find(&v, &4usize).unwrap(), 1);
}

#[test]
fn find_misses_free_slot_when_probe_wraps() {
    // the probe from usize::MAX wraps to 0 before it reaches slot 2
    let v = vec![5usize, 6, 0];
    assert_eq!(usize::MAX % 3, 0);
    assert_eq!(UsizeT::find(&v, &usize::MAX).unwrap_err(), LoomError::NoSpace);
    // without the wrap the free slot is found
    assert_eq!(UsizeT::find(&v, &3usize).unwrap(), 2);
}

#[test]
fn migrate_copies_items_to_their_slots() {
    let src = vec![4usize, 0, 6, 3];
    let mut dst = vec![0usize; 8];
    UsizeT::migrate(&src, &mut dst).expect("migrate");
    assert_eq!(dst, vec![4usize, 0, 6, 3, 0, 0, 0, 0]);
}

#[test]
fn migrate_uses_lookup_in_source() {
    // 5 sits in slot 0 but its lookup in the source stops at free slot 1
    let src = vec![5usize, 0];
    let mut dst = vec![0usize; 4];
    UsizeT::migrate(&src, &mut dst).expect("migrate");
    assert_eq!(dst, vec![0usize, 5, 0, 0]);
}

#[test]
fn migrate_fails_when_lookup_fails() {
    // usize::MAX sits in slot 2, but its probe visits slots 0, 0, 1 only
    let src = vec![5usize, 6, usize::MAX];
    let mut dst = vec![0usize; 3];
    let r = UsizeT::migrate(&src, &mut dst);
    assert_eq!(r.unwrap_err(), LoomError::NoSpace);
    assert_eq!(dst, vec![5usize, 6, 0]);
}

#[test]
fn byte_key_start_is_big_endian_prefix() {
    let mut k = [0u8; 32];
    k[0] = 1;
    k[7] = 2;
    k[8] = 0xff;
    assert_eq!(k.start(), 0x0100_0000_0000_0002usize);
    assert!(!k.unused());
    assert!([0u8; 32].unused());
    assert!(k.same(&k.clone()));
    assert!(!k.same(&[0u8; 32]));
}

#[test]
fn account_table_find() {
    let mut k = [0u8; 32];
    k[7] = 3;
    let mut t = vec![Account::default(); 4];
    let p = AccountT::find(&t, &k).unwrap();
    assert_eq!(p, 3);
    t[p].from = k;
    let mut k2 = [0u8; 32];
    k2[7] = 7;
    assert_eq!(AccountT::find(&t, &k2).unwrap(), 0);
    assert_eq!(AccountT::find(&t, &k).unwrap(), 3);
}

#[test]
fn wrapping_probe_visits_every_slot_of_a_power_of_two_table() {
    // the probe from usize::MAX wraps to 0 and still reaches every slot of 4
    let v = vec![1usize, 2, 0, 3];
    assert_eq!(UsizeT::find(&v, &usize::MAX).unwrap(), 2);
    let full = vec![1usize, 2, 5, 3];
    assert_eq!(UsizeT::find(&full, &usize::MAX).unwrap_err(), LoomError::NoSpace);
}
