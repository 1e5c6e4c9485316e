//! Byte-level helpers for the little-endian wire layout: values of byte strings,
//! their encodings, and the loops that read and write them.
use vstd::prelude::*;

verus! {

/// `256` to the power `n`.
pub open spec fn pow256(n: nat) -> nat
    decreases n,
{
    if n == 0 {
        1
    } else {
        256 * pow256((n - 1) as nat)
    }
}

/// The number that `s` spells with its first byte least significant.
pub open spec fn le_value(s: Seq<u8>) -> nat
    decreases s.len(),
{
    if s.len() == 0 {
        0
    } else {
        s[0] as nat + 256 * le_value(s.drop_first())
    }
}

/// The number that `s` spells with its first byte most significant.
pub open spec fn be_value(s: Seq<u8>) -> nat
    decreases s.len(),
{
    if s.len() == 0 {
        0
    } else {
        be_value(s.drop_last()) * 256 + s.last() as nat
    }
}

/// The `n` low bytes of `v`, least significant first.
pub open spec fn le_bytes(v: nat, n: nat) -> Seq<u8>
    decreases n,
{
    if n == 0 {
        Seq::empty()
    } else {
        seq![(v % 256) as u8] + le_bytes(v / 256, (n - 1) as nat)
    }
}

/// `n` zero bytes.
pub open spec fn zeros(n: nat) -> Seq<u8> {
    Seq::new(n, |i: int| 0u8)
}

pub proof fn lemma_pow256_facts(n: nat)
    ensures
        pow256(n) >= 1,
        pow256(n + 1) == 256 * pow256(n),
        n <= 8 ==> pow256(n) <= pow256(8),
        pow256(8) == 0x1_0000_0000_0000_0000,
        pow256(4) == 0x1_0000_0000,
        pow256(2) == 0x1_0000,
    decreases n,
{
    reveal_with_fuel(pow256, 9);
    if n > 0 {
        lemma_pow256_facts((n - 1) as nat);
    }
    if n <= 8 {
        lemma_pow256_monotone(n, 8);
    }
}

pub proof fn lemma_pow256_monotone(a: nat, b: nat)
    requires
        a <= b,
    ensures
        pow256(a) <= pow256(b),
    decreases b,
{
    if a < b {
        lemma_pow256_monotone(a, (b - 1) as nat);
        lemma_pow256_positive((b - 1) as nat);
    }
}

pub proof fn lemma_pow256_positive(n: nat)
    ensures
        pow256(n) >= 1,
    decreases n,
{
    if n > 0 {
        lemma_pow256_positive((n - 1) as nat);
    }
}

/// A byte string of length `n` spells a number below `256^n`.
pub proof fn lemma_le_value_bound(s: Seq<u8>)
    ensures
        le_value(s) < pow256(s.len()),
    decreases s.len(),
{
    if s.len() > 0 {
        lemma_le_value_bound(s.drop_first());
        let r = le_value(s.drop_first());
        let p = pow256((s.len() - 1) as nat);
        assert(s[0] as nat + 256 * r < 256 * p) by (nonlinear_arith)
            requires
                r < p,
                s[0] < 256,
        ;
    }
}

pub proof fn lemma_be_value_bound(s: Seq<u8>)
    ensures
        be_value(s) < pow256(s.len()),
    decreases s.len(),
{
    if s.len() > 0 {
        lemma_be_value_bound(s.drop_last());
        let r = be_value(s.drop_last());
        let p = pow256((s.len() - 1) as nat);
        assert(r * 256 + s.last() < 256 * p) by (nonlinear_arith)
            requires
                r < p,
                s.last() < 256,
        ;
    }
}

/// Writing a number below `256^n` in `n` bytes and reading it back gives it again.
pub proof fn lemma_le_bytes_value(v: nat, n: nat)
    requires
        v < pow256(n),
    ensures
        le_bytes(v, n).len() == n,
        le_value(le_bytes(v, n)) == v,
    decreases n,
{
    if n > 0 {
        let p = pow256((n - 1) as nat);
        assert(v / 256 < p) by (nonlinear_arith)
            requires
                v < 256 * p,
        ;
        lemma_le_bytes_value(v / 256, (n - 1) as nat);
        let s = le_bytes(v, n);
        assert(s.drop_first() =~= le_bytes(v / 256, (n - 1) as nat));
        assert(v == v % 256 + 256 * (v / 256)) by (nonlinear_arith);
    } else {
        reveal_with_fuel(pow256, 1);
    }
}

/// Reading `n` bytes as a number and writing it back in `n` bytes gives them again.
pub proof fn lemma_le_value_bytes(s: Seq<u8>)
    ensures
        le_bytes(le_value(s), s.len()) == s,
    decreases s.len(),
{
    if s.len() > 0 {
        lemma_le_value_bytes(s.drop_first());
        let r = le_value(s.drop_first());
        let v = le_value(s);
        assert(v % 256 == s[0] && v / 256 == r) by (nonlinear_arith)
            requires
                v == s[0] as nat + 256 * r,
                s[0] < 256,
        ;
        assert(le_bytes(v, s.len()) =~= s);
    }
}

/// One step of reading a little-endian number from its most significant end.
proof fn lemma_le_value_step(s: Seq<u8>, lo: int, hi: int)
    requires
        0 <= lo < hi <= s.len(),
    ensures
        le_value(s.subrange(lo, hi)) == s[lo] as nat + 256 * le_value(s.subrange(lo + 1, hi)),
{
    assert(s.subrange(lo, hi).drop_first() =~= s.subrange(lo + 1, hi));
}

/// The little-endian number in `b[off .. off + n]`.
pub fn read_le(b: &[u8], off: usize, n: usize) -> (v: u64)
    requires
        off + n <= b@.len(),
        n <= 8,
    ensures
        v as nat == le_value(b@.subrange(off as int, off + n)),
{
    let blen = b.len();
    let mut v: u64 = 0;
    let mut i: usize = n;
    proof {
        assert(b@.subrange(off + n, off + n).len() == 0);
    }
    while i > 0
        invariant
            i <= n <= 8,
            off + n <= b@.len(),
            blen == b@.len(),
            v as nat == le_value(b@.subrange(off + i, off + n)),
        decreases i,
    {
        i -= 1;
        proof {
            lemma_le_value_bound(b@.subrange(off + i + 1, off + n));
            lemma_pow256_facts((n - i - 1) as nat);
            lemma_pow256_monotone((n - i - 1) as nat, 7);
            lemma_pow256_facts(7);
            reveal_with_fuel(pow256, 9);
            lemma_le_value_step(b@, off + i, off + n);
            assert(v * 256 + 255 < 0x1_0000_0000_0000_0000) by (nonlinear_arith)
                requires
                    v < pow256(7),
                    pow256(7) == 0x100_0000_0000_0000,
            ;
        }
        v = v * 256 + b[off + i] as u64;
    }
    v
}

/// The big-endian number in `b[off .. off + n]`.
pub fn read_be(b: &[u8], off: usize, n: usize) -> (v: u64)
    requires
        off + n <= b@.len(),
        n <= 8,
    ensures
        v as nat == be_value(b@.subrange(off as int, off + n)),
{
    let blen = b.len();
    let mut v: u64 = 0;
    let mut i: usize = 0;
    proof {
        assert(b@.subrange(off as int, off as int).len() == 0);
    }
    while i < n
        invariant
            i <= n <= 8,
            off + n <= b@.len(),
            blen == b@.len(),
            v as nat == be_value(b@.subrange(off as int, off + i)),
        decreases n - i,
    {
        proof {
            lemma_be_value_bound(b@.subrange(off as int, off + i));
            lemma_pow256_monotone(i as nat, 7);
            reveal_with_fuel(pow256, 9);
            assert(b@.subrange(off as int, off + i + 1).drop_last() =~= b@.subrange(off as int, off + i));
            assert(v * 256 + 255 < 0x1_0000_0000_0000_0000) by (nonlinear_arith)
                requires
                    v < pow256(7),
                    pow256(7) == 0x100_0000_0000_0000,
            ;
        }
        v = v * 256 + b[off + i] as u64;
        i += 1;
    }
    v
}

/// Appends the `n` low bytes of `v`, least significant first.
pub fn push_le(out: &mut Vec<u8>, v: u64, n: usize)
    ensures
        final(out)@ == old(out)@ + le_bytes(v as nat, n as nat),
{
    let mut x: u64 = v;
    let mut i: usize = 0;
    while i < n
        invariant
            i <= n,
            out@ + le_bytes(x as nat, (n - i) as nat) == old(out)@ + le_bytes(v as nat, n as nat),
        decreases n - i,
    {
        let ghost before = out@;
        let b = (x % 256) as u8;
        proof {
            let k = (n - i) as nat;
            assert(le_bytes(x as nat, k) == seq![b] + le_bytes((x / 256) as nat, (k - 1) as nat));
            assert(before.push(b) + le_bytes((x / 256) as nat, (k - 1) as nat) =~= before + (seq![b]
                + le_bytes((x / 256) as nat, (k - 1) as nat)));
        }
        out.push(b);
        x = x / 256;
        i += 1;
    }
    proof {
        assert(out@ + le_bytes(x as nat, 0) =~= out@);
    }
}

/// Appends all of `src`.
pub fn push_bytes(out: &mut Vec<u8>, src: &[u8])
    ensures
        final(out)@ == old(out)@ + src@,
{
    let mut i: usize = 0;
    while i < src.len()
        invariant
            i <= src@.len(),
            out@ == old(out)@ + src@.subrange(0, i as int),
        decreases src@.len() - i,
    {
        out.push(src[i]);
        i += 1;
        proof {
            assert(out@ =~= old(out)@ + src@.subrange(0, i as int));
        }
    }
    proof {
        assert(src@.subrange(0, src@.len() as int) =~= src@);
    }
}

/// Copies `src` into `dst` from position `off` on.
pub fn put_bytes(dst: &mut [u8], off: usize, src: &[u8])
    requires
        off + src@.len() <= old(dst)@.len(),
    ensures
        final(dst)@.len() == old(dst)@.len(),
        final(dst)@ == old(dst)@.subrange(0, off as int) + src@ + old(dst)@.subrange(
            off + src@.len(),
            old(dst)@.len() as int,
        ),
{
    let dlen = dst.len();
    let mut i: usize = 0;
    while i < src.len()
        invariant
            i <= src@.len(),
            dlen == old(dst)@.len(),
            off + src@.len() <= old(dst)@.len(),
            dst@.len() == old(dst)@.len(),
            dst@ == old(dst)@.subrange(0, off as int) + src@.subrange(0, i as int) + old(dst)@.subrange(
                off + i,
                old(dst)@.len() as int,
            ),
        decreases src@.len() - i,
    {
        dst[off + i] = src[i];
        i += 1;
        proof {
            assert(dst@ =~= old(dst)@.subrange(0, off as int) + src@.subrange(0, i as int)
                + old(dst)@.subrange(off + i, old(dst)@.len() as int));
        }
    }
    proof {
        assert(src@.subrange(0, src@.len() as int) =~= src@);
    }
}

/// The 32 bytes `b[off .. off + 32]`.
pub fn read_32(b: &[u8], off: usize) -> (r: [u8; 32])
    requires
        off + 32 <= b@.len(),
    ensures
        r@ == b@.subrange(off as int, off + 32),
{
    let blen = b.len();
    let mut r = [0u8; 32];
    let mut i: usize = 0;
    while i < 32
        invariant
            i <= 32,
            blen == b@.len(),
            off + 32 <= b@.len(),
            r@.len() == 32,
            forall|j: int| 0 <= j < i ==> r@[j] == b@[off + j],
        decreases 32 - i,
    {
        r[i] = b[off + i];
        i += 1;
    }
    proof {
        assert(r@ =~= b@.subrange(off as int, off + 32));
    }
    r
}

/// The 4 bytes `b[off .. off + 4]`.
pub fn read_4(b: &[u8], off: usize) -> (r: [u8; 4])
    requires
        off + 4 <= b@.len(),
    ensures
        r@ == b@.subrange(off as int, off + 4),
{
    let r = [b[off], b[off + 1], b[off + 2], b[off + 3]];
    proof {
        assert(r@ =~= b@.subrange(off as int, off + 4));
    }
    r
}

pub proof fn lemma_le_bytes_len(v: nat, n: nat)
    ensures
        le_bytes(v, n).len() == n,
    decreases n,
{
    if n > 0 {
        lemma_le_bytes_len(v / 256, (n - 1) as nat);
    }
}

/// Appends `n` zero bytes.
pub fn push_zeros(out: &mut Vec<u8>, n: usize)
    ensures
        final(out)@ == old(out)@ + zeros(n as nat),
{
    let mut i: usize = 0;
    while i < n
        invariant
            i <= n,
            out@ == old(out)@ + zeros(i as nat),
        decreases n - i,
    {
        out.push(0u8);
        i += 1;
        proof {
            assert(out@ =~= old(out)@ + zeros(i as nat));
        }
    }
}

/// The 64 bytes `b[off .. off + 64]`.
pub fn read_64(b: &[u8], off: usize) -> (r: [u8; 64])
    requires
        off + 64 <= b@.len(),
    ensures
        r@ == b@.subrange(off as int, off + 64),
{
    let blen = b.len();
    let mut r = [0u8; 64];
    let mut i: usize = 0;
    while i < 64
        invariant
            i <= 64,
            blen == b@.len(),
            off + 64 <= b@.len(),
            r@.len() == 64,
            forall|j: int| 0 <= j < i ==> r@[j] == b@[off + j],
        decreases 64 - i,
    {
        r[i] = b[off + i];
        i += 1;
    }
    proof {
        assert(r@ =~= b@.subrange(off as int, off + 64));
    }
    r
}

/// The 152 bytes `b[off .. off + 152]`.
pub fn read_152(b: &[u8], off: usize) -> (r: [u8; 152])
    requires
        off + 152 <= b@.len(),
    ensures
        r@ == b@.subrange(off as int, off + 152),
{
    let blen = b.len();
    let mut r = [0u8; 152];
    let mut i: usize = 0;
    while i < 152
        invariant
            i <= 152,
            blen == b@.len(),
            off + 152 <= b@.len(),
            r@.len() == 152,
            forall|j: int| 0 <= j < i ==> r@[j] == b@[off + j],
        decreases 152 - i,
    {
        r[i] = b[off + i];
        i += 1;
    }
    proof {
        assert(r@ =~= b@.subrange(off as int, off + 152));
    }
    r
}

/// Whether the two byte strings are equal.
pub fn bytes_equal(a: &[u8], b: &[u8]) -> (r: bool)
    ensures
        r == (a@ == b@),
{
    if a.len() != b.len() {
        return false;
    }
    let mut i: usize = 0;
    while i < a.len()
        invariant
            i <= a@.len(),
            a@.len() == b@.len(),
            forall|j: int| 0 <= j < i ==> a@[j] == b@[j],
        decreases a@.len() - i,
    {
        if a[i] != b[i] {
            return false;
        }
        i += 1;
    }
    proof {
        assert(a@ =~= b@);
    }
    true
}

} // verus!
