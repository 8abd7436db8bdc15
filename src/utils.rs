//! Byte-level helpers: little-endian integers, work comparison, and the
//! host-runtime hash folding.
use vstd::prelude::*;

verus! {

/// `256^n`.
pub open spec fn pow256(n: nat) -> nat
    decreases n,
{
    if n == 0 {
        1
    } else {
        256 * pow256((n - 1) as nat)
    }
}

/// The unsigned integer whose little-endian encoding is `s` (byte 0 is the
/// least significant).
pub open spec fn le_int(s: Seq<u8>) -> nat
    decreases s.len(),
{
    if s.len() == 0 {
        0
    } else {
        s[0] as nat + 256 * le_int(s.subrange(1, s.len() as int))
    }
}

/// The unsigned integer whose big-endian encoding is `s` (the last byte is the
/// least significant).
pub open spec fn be_int(s: Seq<u8>) -> nat
    decreases s.len(),
{
    if s.len() == 0 {
        0
    } else {
        be_int(s.drop_last()) * 256 + s.last() as nat
    }
}

/// The four little-endian bytes of `v`.
pub open spec fn le_bytes_u32(v: u32) -> Seq<u8> {
    seq![
        (v % 256) as u8,
        ((v / 256) % 256) as u8,
        ((v / 65536) % 256) as u8,
        ((v / 16777216) % 256) as u8,
    ]
}

proof fn lemma_pow256_small()
    ensures
        pow256(0) == 1,
        pow256(1) == 256,
        pow256(2) == 65536,
        pow256(3) == 16777216,
        pow256(4) == 4294967296,
{
    assert(pow256(1) == 256 * pow256(0));
    assert(pow256(2) == 256 * pow256(1));
    assert(pow256(3) == 256 * pow256(2));
    assert(pow256(4) == 256 * pow256(3));
}

/// A little-endian integer of `n` bytes is below `256^n`.
pub proof fn lemma_le_int_bound(s: Seq<u8>)
    ensures
        le_int(s) < pow256(s.len()),
    decreases s.len(),
{
    if s.len() > 0 {
        let tail = s.subrange(1, s.len() as int);
        lemma_le_int_bound(tail);
        assert(pow256(s.len()) == 256 * pow256(tail.len()));
        assert(s[0] as nat + 256 * le_int(tail) < 256 * pow256(tail.len())) by (nonlinear_arith)
            requires
                s[0] < 256,
                le_int(tail) < pow256(tail.len()),
        ;
    }
}

/// Splitting a little-endian encoding: the high part is scaled by `256^|a|`.
pub proof fn lemma_le_int_split(a: Seq<u8>, b: Seq<u8>)
    ensures
        le_int(a + b) == le_int(a) + pow256(a.len()) * le_int(b),
    decreases a.len(),
{
    if a.len() == 0 {
        assert(a + b =~= b);
        assert(pow256(0) == 1);
    } else {
        let tail = a.subrange(1, a.len() as int);
        lemma_le_int_split(tail, b);
        assert((a + b).subrange(1, (a + b).len() as int) =~= tail + b);
        assert((a + b)[0] == a[0]);
        assert(le_int(a + b) == a[0] as nat + 256 * le_int(tail + b));
        assert(pow256(a.len()) == 256 * pow256(tail.len()));
        let x = le_int(tail);
        let p = pow256(tail.len());
        let y = le_int(b);
        assert(256 * (x + p * y) == 256 * x + (256 * p) * y) by (nonlinear_arith);
        assert(le_int(a) == a[0] as nat + 256 * x);
        assert(le_int(a + b) == le_int(a) + pow256(a.len()) * y);
    }
}

/// Reversing a byte string swaps the two readings of it.
pub proof fn lemma_be_int_reverse(s: Seq<u8>)
    ensures
        be_int(s) == le_int(s.reverse()),
    decreases s.len(),
{
    if s.len() > 0 {
        lemma_be_int_reverse(s.drop_last());
        let r = s.reverse();
        assert(r.subrange(1, r.len() as int) =~= s.drop_last().reverse());
        assert(r[0] == s.last());
    }
}

/// Two equal-length strings that agree above position `k` and differ at `k`
/// compare as their bytes at `k` do.
proof fn lemma_le_int_lt(w: Seq<u8>, t: Seq<u8>, k: int)
    requires
        w.len() == t.len(),
        0 <= k < w.len(),
        w[k] < t[k],
        w.subrange(k + 1, w.len() as int) == t.subrange(k + 1, t.len() as int),
    ensures
        le_int(w) < le_int(t),
{
    let n = w.len() as int;
    let wl = w.subrange(0, k);
    let wh = w.subrange(k, n);
    let tl = t.subrange(0, k);
    let th = t.subrange(k, n);
    assert(w =~= wl + wh);
    assert(t =~= tl + th);
    lemma_le_int_split(wl, wh);
    lemma_le_int_split(tl, th);
    lemma_le_int_bound(wl);
    assert(wh.subrange(1, wh.len() as int) =~= w.subrange(k + 1, n));
    assert(th.subrange(1, th.len() as int) =~= t.subrange(k + 1, n));
    let c = le_int(w.subrange(k + 1, n));
    let p = pow256(k as nat);
    assert(le_int(wh) == wh[0] as nat + 256 * c);
    assert(le_int(th) == th[0] as nat + 256 * c);
    let a = le_int(wl);
    let b = le_int(tl);
    let x = wh[0] as nat;
    let y = th[0] as nat;
    assert(a + p * (x + 256 * c) < b + p * (y + 256 * c)) by (nonlinear_arith)
        requires
            a < p,
            x < y,
    ;
}

/// Compares two equal-length byte strings as little-endian integers: true
/// exactly when `work` is the smaller. Scans from the most significant byte and
/// stops at the first difference.
pub fn work_check(work: &[u8], target: &[u8]) -> (r: bool)
    requires
        work@.len() == target@.len(),
    ensures
        r == (le_int(work@) < le_int(target@)),
{
    let n = work.len();
    let mut i: usize = n;
    while i > 0
        invariant
            work@.len() == n,
            target@.len() == n,
            i <= n,
            work@.subrange(i as int, n as int) == target@.subrange(i as int, n as int),
        decreases i,
    {
        let k = i - 1;
        let a = work[k];
        let b = target[k];
        if a > b {
            proof {
                lemma_le_int_lt(target@, work@, k as int);
            }
            return false;
        } else if a < b {
            proof {
                lemma_le_int_lt(work@, target@, k as int);
            }
            return true;
        }
        assert(work@.subrange(k as int, n as int) =~= seq![a] + work@.subrange(i as int, n as int));
        assert(target@.subrange(k as int, n as int) =~= seq![b] + target@.subrange(i as int, n as int));
        i = k;
    }
    assert(work@ =~= work@.subrange(0, n as int));
    assert(target@ =~= target@.subrange(0, n as int));
    false
}

/// The SHA-256 digest of `b`.
pub uninterp spec fn sha256_of(b: Seq<u8>) -> Seq<u8>;

/// Relies on `sha2::Sha256::digest`: the SHA-256 digest of the input, 32
/// bytes.
#[verifier::external_body]
fn sha256_digest(b: &[u8]) -> (r: Vec<u8>)
    ensures
        r@ == sha256_of(b@),
        r@.len() == 32,
{
    <sha2::Sha256 as sha2::Digest>::digest(b).to_vec()
}

/// SHA-256 applied twice.
pub fn sha256double(b: &[u8]) -> (r: Vec<u8>)
    ensures
        r@ == sha256_of(sha256_of(b@)),
        r@.len() == 32,
{
    let first = sha256_digest(b);
    sha256_digest(first.as_slice())
}

/// The pointer-sized modulus of the host runtime's hash protocol (64-bit
/// targets).
pub const MAX_POINTER_INT: u64 = 0xffff_ffff_ffff_ffff;

/// Folds a 64-bit hash into a signed pointer-sized value for a host runtime's
/// hash protocol: `(i mod MAX_POINTER_INT) - (2^63 - 1)`, which always fits
/// in 64 bits.
pub fn python_hash(i: u64) -> (r: i64)
    ensures
        r as int == (i as int % MAX_POINTER_INT as int) - 0x7fff_ffff_ffff_ffff,
{
    let a: u64 = i % MAX_POINTER_INT;
    if a < 0x8000_0000_0000_0000 {
        a as i64 - 0x7fff_ffff_ffff_ffff
    } else {
        (a - 0x7fff_ffff_ffff_ffff) as i64
    }
}

/// The four little-endian bytes of `i`.
pub fn u32_to_bytes(i: u32) -> (r: [u8; 4])
    ensures
        r@ == le_bytes_u32(i),
{
    let r: [u8; 4] = [
        (i % 256) as u8,
        ((i / 256) % 256) as u8,
        ((i / 65536) % 256) as u8,
        ((i / 16777216) % 256) as u8,
    ];
    assert(r@ =~= le_bytes_u32(i));
    r
}

/// Reads a `u32` from the first four bytes of `bytes`, little-endian; missing
/// bytes count as zero and bytes past the fourth are ignored.
pub fn bytes_to_u32(bytes: &[u8]) -> (r: u32)
    ensures
        r as nat == le_int(bytes@.take(if bytes@.len() < 4 { bytes@.len() as int } else { 4 })),
{
    let n: usize = if bytes.len() < 4 {
        bytes.len()
    } else {
        4
    };
    let mut acc: u32 = 0;
    let mut i: usize = n;
    while i > 0
        invariant
            n <= 4,
            n <= bytes@.len(),
            i <= n,
            acc as nat == le_int(bytes@.subrange(i as int, n as int)),
            (acc as nat) < pow256((n - i) as nat),
        decreases i,
    {
        let k = i - 1;
        let ghost s = bytes@.subrange(k as int, n as int);
        assert(s.subrange(1, s.len() as int) =~= bytes@.subrange(i as int, n as int));
        assert(pow256((n - k) as nat) == 256 * pow256((n - i) as nat));
        proof {
            lemma_pow256_small();
        }
        assert(bytes[k as int] as nat + 256 * (acc as nat) < 256 * pow256((n - i) as nat)) by (nonlinear_arith)
            requires
                bytes[k as int] < 256,
                (acc as nat) < pow256((n - i) as nat),
        ;
        acc = bytes[k] as u32 + 256 * acc;
        i = k;
    }
    assert(bytes@.take(n as int) =~= bytes@.subrange(0, n as int));
    acc
}

} // verus!
