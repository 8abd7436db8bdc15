//! An ordered, dependency-aware pool of unconfirmed transactions.
//!
//! Entries are kept in priority order (index 0 first). Every public operation
//! preserves two invariants: hashes are unique, and every parent that is
//! present stands before each of its children.
use vstd::prelude::*;

verus! {

/// A 256-bit transaction identifier, as four 64-bit words (most significant
/// first).
#[derive(Clone, Copy, PartialEq, Eq, Structural, Debug, Hash)]
pub struct TxHash(pub u64, pub u64, pub u64, pub u64);

/// The eight bytes of `w`, most significant first.
pub open spec fn word_be_bytes(w: u64) -> Seq<u8> {
    seq![
        ((w >> 56u64) & 0xff) as u8,
        ((w >> 48u64) & 0xff) as u8,
        ((w >> 40u64) & 0xff) as u8,
        ((w >> 32u64) & 0xff) as u8,
        ((w >> 24u64) & 0xff) as u8,
        ((w >> 16u64) & 0xff) as u8,
        ((w >> 8u64) & 0xff) as u8,
        (w & 0xff) as u8,
    ]
}

/// The 32 big-endian bytes of a hash.
pub open spec fn hash_bytes(h: TxHash) -> Seq<u8> {
    word_be_bytes(h.0) + word_be_bytes(h.1) + word_be_bytes(h.2) + word_be_bytes(h.3)
}

/// The word whose big-endian bytes are `b[at..at + 8]`.
fn be_word(b: &[u8], at: usize) -> (r: u64)
    requires
        at + 8 <= b@.len(),
    ensures
        word_be_bytes(r) == b@.subrange(at as int, at + 8),
{
    let b0 = b[at] as u64;
    let b1 = b[at + 1] as u64;
    let b2 = b[at + 2] as u64;
    let b3 = b[at + 3] as u64;
    let b4 = b[at + 4] as u64;
    let b5 = b[at + 5] as u64;
    let b6 = b[at + 6] as u64;
    let b7 = b[at + 7] as u64;
    let w = (b0 << 56u64) | (b1 << 48u64) | (b2 << 40u64) | (b3 << 32u64) | (b4 << 24u64) | (b5 << 16u64) | (b6
        << 8u64) | b7;
    assert(((w >> 56u64) & 0xff) == b0 && ((w >> 48u64) & 0xff) == b1 && ((w >> 40u64) & 0xff) == b2 && ((w
        >> 32u64) & 0xff) == b3 && ((w >> 24u64) & 0xff) == b4 && ((w >> 16u64) & 0xff) == b5 && ((w >> 8u64)
        & 0xff) == b6 && (w & 0xff) == b7) by (bit_vector)
        requires
            b0 < 256 && b1 < 256 && b2 < 256 && b3 < 256 && b4 < 256 && b5 < 256 && b6 < 256 && b7 < 256,
            w == (b0 << 56u64) | (b1 << 48u64) | (b2 << 40u64) | (b3 << 32u64) | (b4 << 24u64) | (b5 << 16u64)
                | (b6 << 8u64) | b7,
    ;
    assert(word_be_bytes(w) =~= b@.subrange(at as int, at + 8));
    w
}

/// Appends the big-endian bytes of `w` to `out`.
fn push_word(out: &mut Vec<u8>, w: u64)
    ensures
        final(out)@ == old(out)@ + word_be_bytes(w),
{
    let ghost o = out@;
    out.push(((w >> 56u64) & 0xff) as u8);
    out.push(((w >> 48u64) & 0xff) as u8);
    out.push(((w >> 40u64) & 0xff) as u8);
    out.push(((w >> 32u64) & 0xff) as u8);
    out.push(((w >> 24u64) & 0xff) as u8);
    out.push(((w >> 16u64) & 0xff) as u8);
    out.push(((w >> 8u64) & 0xff) as u8);
    out.push((w & 0xff) as u8);
    assert(out@ =~= o + word_be_bytes(w));
}

impl TxHash {
    pub fn new(w0: u64, w1: u64, w2: u64, w3: u64) -> (r: TxHash)
        ensures
            r == TxHash(w0, w1, w2, w3),
    {
        TxHash(w0, w1, w2, w3)
    }

    /// The hash whose 32 big-endian bytes are `b`.
    pub fn from_be_bytes(b: &[u8]) -> (r: TxHash)
        requires
            b@.len() == 32,
        ensures
            hash_bytes(r) == b@,
    {
        let r = TxHash(be_word(b, 0), be_word(b, 8), be_word(b, 16), be_word(b, 24));
        assert(hash_bytes(r) =~= b@);
        r
    }

    /// The 32 big-endian bytes of the hash.
    pub fn to_be_bytes(&self) -> (r: Vec<u8>)
        ensures
            r@ == hash_bytes(*self),
    {
        let mut r: Vec<u8> = Vec::new();
        push_word(&mut r, self.0);
        push_word(&mut r, self.1);
        push_word(&mut r, self.2);
        push_word(&mut r, self.3);
        assert(r@ =~= hash_bytes(*self));
        r
    }
}

/// Why a pool operation was refused.
#[derive(Clone, Copy, PartialEq, Eq, Structural, Debug)]
pub enum PoolError {
    /// An entry with this hash is already in the pool.
    DuplicateHash,
    /// No entry with this hash is in the pool.
    NotFound,
}

/// One unconfirmed transaction: a caller-owned handle `obj`, its identity,
/// the hashes of its parents, and the fields that rank it.
pub struct Unconfirmed<T> {
    pub obj: T,
    pub hash: TxHash,
    pub depends: Vec<TxHash>,
    pub price: u32,
    pub time: u32,
    pub deadline: u32,
    pub size: u32,
}

impl<T> Unconfirmed<T> {
    /// The 32 big-endian bytes of the entry's hash.
    pub fn bytes(&self) -> (r: Vec<u8>)
        ensures
            r@ == hash_bytes(self.hash),
    {
        self.hash.to_be_bytes()
    }
}

/// `c` names `p` among its parents.
pub open spec fn depends_on<T>(c: Unconfirmed<T>, p: TxHash) -> bool {
    c.depends@.contains(p)
}

/// `a` ranks strictly ahead of `b`: a higher price, or the same price and an
/// earlier time.
pub open spec fn outranks<T>(a: Unconfirmed<T>, b: Unconfirmed<T>) -> bool {
    a.price > b.price || (a.price == b.price && a.time < b.time)
}

pub open spec fn has_hash<T>(s: Seq<Unconfirmed<T>>, h: TxHash) -> bool {
    exists|i: int| 0 <= i < s.len() && #[trigger] s[i].hash == h
}

/// No two entries share a hash.
pub open spec fn distinct_hashes<T>(s: Seq<Unconfirmed<T>>) -> bool {
    forall|i: int, j: int|
        0 <= i < s.len() && 0 <= j < s.len() && i != j ==> #[trigger] s[i].hash != #[trigger] s[j].hash
}

/// Every parent that is present stands before its child.
pub open spec fn parents_first<T>(s: Seq<Unconfirmed<T>>) -> bool {
    forall|i: int, j: int|
        0 <= i < s.len() && 0 <= j < s.len() && #[trigger] s[i].depends@.contains(
            #[trigger] s[j].hash,
        ) ==> j < i
}

/// The pool invariants: unique hashes, parents before children.
pub open spec fn pool_ok<T>(s: Seq<Unconfirmed<T>>) -> bool {
    distinct_hashes(s) && parents_first(s)
}

/// No hash occurs in both sequences.
pub open spec fn disjoint<T>(a: Seq<Unconfirmed<T>>, b: Seq<Unconfirmed<T>>) -> bool {
    forall|i: int, j: int|
        0 <= i < a.len() && 0 <= j < b.len() ==> #[trigger] a[i].hash != #[trigger] b[j].hash
}

/// Every declared parent of `e` has a higher rank than `e`.
pub open spec fn ranked_entry<T>(e: Unconfirmed<T>, rank: spec_fn(TxHash) -> nat) -> bool {
    forall|p: TxHash| #[trigger] e.depends@.contains(p) ==> rank(e.hash) < rank(p)
}

/// `rank` decreases from every entry of `s` to each of its children.
pub open spec fn ranked<T>(s: Seq<Unconfirmed<T>>, rank: spec_fn(TxHash) -> nat) -> bool {
    forall|e: Unconfirmed<T>| #[trigger] s.contains(e) ==> ranked_entry(e, rank)
}

/// The entries of `s`, together with a new entry of hash `h` and parents
/// `deps`, form no dependency cycle.
pub open spec fn acyclic_with<T>(s: Seq<Unconfirmed<T>>, h: TxHash, deps: Seq<TxHash>) -> bool {
    exists|rank: spec_fn(TxHash) -> nat|
        ranked(s, rank) && (forall|p: TxHash| #[trigger] deps.contains(p) ==> rank(h) < rank(p))
}

/// Entry `k` of `d` names as a parent an entry of `d` between `lo` and `k`.
pub open spec fn linked_back<T>(d: Seq<Unconfirmed<T>>, lo: int, k: int) -> bool {
    exists|m: int| lo <= m < k && #[trigger] depends_on(d[k], d[m].hash)
}

/// `f` maps `small` into `big`, preserving order.
pub open spec fn embeds<A>(small: Seq<A>, big: Seq<A>, f: spec_fn(int) -> int) -> bool {
    &&& forall|i: int|
        0 <= i < small.len() ==> 0 <= #[trigger] f(i) < big.len() && small[i] == big[f(i)]
    &&& forall|i: int, j: int| 0 <= i < j < small.len() ==> #[trigger] f(i) < #[trigger] f(j)
}

/// `small` is `big` with some entries taken out, the others in their order.
pub open spec fn is_subseq<A>(small: Seq<A>, big: Seq<A>) -> bool {
    exists|f: spec_fn(int) -> int| embeds(small, big, f)
}

pub proof fn lemma_subseq_remove<A>(s: Seq<A>, k: int)
    requires
        0 <= k < s.len(),
    ensures
        is_subseq(s.remove(k), s),
{
    let f = |i: int| if i < k { i } else { i + 1 };
    assert(embeds(s.remove(k), s, f));
}

pub proof fn lemma_subseq_refl<A>(s: Seq<A>)
    ensures
        is_subseq(s, s),
{
    let f = |i: int| i;
    assert(embeds(s, s, f));
}

pub proof fn lemma_subseq_trans<A>(a: Seq<A>, b: Seq<A>, c: Seq<A>)
    requires
        is_subseq(a, b),
        is_subseq(b, c),
    ensures
        is_subseq(a, c),
{
    let f = choose|f: spec_fn(int) -> int| embeds(a, b, f);
    let g = choose|g: spec_fn(int) -> int| embeds(b, c, g);
    let h = |i: int| g(f(i));
    assert forall|i: int, j: int| 0 <= i < j < a.len() implies #[trigger] h(i) < #[trigger] h(j) by {
        assert(f(i) < f(j));
    }
    assert(embeds(a, c, h));
}

pub proof fn lemma_subseq_contains<A>(a: Seq<A>, b: Seq<A>, x: A)
    requires
        is_subseq(a, b),
        a.contains(x),
    ensures
        b.contains(x),
{
    let f = choose|f: spec_fn(int) -> int| embeds(a, b, f);
    let i = choose|i: int| 0 <= i < a.len() && a[i] == x;
    assert(b[f(i)] == x);
}

proof fn lemma_concat_contains<A>(a: Seq<A>, b: Seq<A>, e: A)
    ensures
        (a + b).contains(e) <==> a.contains(e) || b.contains(e),
{
    if (a + b).contains(e) {
        let q = choose|q: int| 0 <= q < (a + b).len() && (a + b)[q] == e;
        if q < a.len() {
            assert(a[q] == e);
        } else {
            assert(b[q - a.len()] == e);
        }
    }
    if a.contains(e) {
        let q = choose|q: int| 0 <= q < a.len() && a[q] == e;
        assert((a + b)[q] == e);
    }
    if b.contains(e) {
        let q = choose|q: int| 0 <= q < b.len() && b[q] == e;
        assert((a + b)[a.len() + q] == e);
    }
}

/// Entries taken from a pool with unique hashes: an entry is fixed by its hash.
proof fn lemma_same_hash_same_entry<T>(s: Seq<Unconfirmed<T>>, a: Unconfirmed<T>, b: Unconfirmed<T>)
    requires
        distinct_hashes(s),
        s.contains(a),
        s.contains(b),
        a.hash == b.hash,
    ensures
        a == b,
{
    let i = choose|i: int| 0 <= i < s.len() && s[i] == a;
    let j = choose|j: int| 0 <= j < s.len() && s[j] == b;
    assert(s[i].hash == s[j].hash);
}

/// The index of the entry with hash `h` (meaningful when it is present).
pub open spec fn index_of<T>(s: Seq<Unconfirmed<T>>, h: TxHash) -> int {
    choose|i: int| 0 <= i < s.len() && s[i].hash == h
}

/// A rank read off a pool in parents-first order: position from the end.
pub open spec fn order_rank<T>(s: Seq<Unconfirmed<T>>) -> spec_fn(TxHash) -> nat {
    |h: TxHash|
        if has_hash(s, h) {
            (s.len() - index_of(s, h)) as nat
        } else {
            (s.len() + 1) as nat
        }
}

proof fn lemma_index_of<T>(s: Seq<Unconfirmed<T>>, i: int)
    requires
        distinct_hashes(s),
        0 <= i < s.len(),
    ensures
        index_of(s, s[i].hash) == i,
        has_hash(s, s[i].hash),
{
    assert(has_hash(s, s[i].hash));
    let j = index_of(s, s[i].hash);
    assert(s[j].hash == s[i].hash);
}

/// A pool in parents-first order has no dependency cycle.
pub proof fn lemma_pool_ranked<T>(s: Seq<Unconfirmed<T>>)
    requires
        pool_ok(s),
    ensures
        ranked(s, order_rank(s)),
{
    let rank = order_rank(s);
    assert forall|e: Unconfirmed<T>| #[trigger] s.contains(e) implies ranked_entry(e, rank) by {
        let i = choose|i: int| 0 <= i < s.len() && s[i] == e;
        lemma_index_of(s, i);
        assert forall|p: TxHash| #[trigger] e.depends@.contains(p) implies rank(e.hash) < rank(p) by {
            if has_hash(s, p) {
                let j = index_of(s, p);
                assert(s[i].depends@.contains(s[j].hash));
            }
        }
    }
}

/// A subset of a ranked set of entries is ranked.
proof fn lemma_ranked_subset<T>(
    small: Seq<Unconfirmed<T>>,
    big: Seq<Unconfirmed<T>>,
    rank: spec_fn(TxHash) -> nat,
)
    requires
        ranked(big, rank),
        forall|e: Unconfirmed<T>| #[trigger] small.contains(e) ==> big.contains(e),
    ensures
        ranked(small, rank),
{
}

/// `x` may be inserted at index `k` of `s`: after each of its parents, no later
/// than any of its children, and at the first such place where it outranks the
/// entry it displaces (or, failing that, just before its first child, or at the
/// end).
pub open spec fn placed<T>(s: Seq<Unconfirmed<T>>, x: Unconfirmed<T>, k: int) -> bool {
    &&& 0 <= k <= s.len()
    &&& forall|i: int| 0 <= i < s.len() && #[trigger] depends_on(x, s[i].hash) ==> i < k
    &&& forall|i: int| 0 <= i < s.len() && depends_on(#[trigger] s[i], x.hash) ==> k <= i
    &&& forall|i: int|
        0 <= i < k && (forall|j: int| i <= j < s.len() ==> !depends_on(x, #[trigger] s[j].hash))
            ==> !#[trigger] outranks(x, s[i])
    &&& (k < s.len() && !depends_on(s[k], x.hash) ==> outranks(x, s[k]))
}

/// `h` is the hash of a child of `x` standing before index `lo` of `s`.
pub open spec fn child_below<T>(s: Seq<Unconfirmed<T>>, x: Unconfirmed<T>, lo: int, h: TxHash) -> bool {
    exists|i: int| 0 <= i < lo && depends_on(s[i], x.hash) && #[trigger] s[i].hash == h
}

/// Every parent of `x` in `s` stands before every child of `x` in `s`.
pub open spec fn no_disturb<T>(s: Seq<Unconfirmed<T>>, x: Unconfirmed<T>) -> bool {
    forall|i: int, j: int|
        0 <= i < s.len() && 0 <= j < s.len() && #[trigger] depends_on(x, s[i].hash)
            && #[trigger] depends_on(s[j], x.hash) ==> i < j
}

/// What `push` of entry `x` does to a pool `s`, giving `t` and result `r`.
pub open spec fn push_post<T>(
    s: Seq<Unconfirmed<T>>,
    x: Unconfirmed<T>,
    t: Seq<Unconfirmed<T>>,
    r: Result<usize, PoolError>,
) -> bool {
    if has_hash(s, x.hash) {
        r == Err::<usize, PoolError>(PoolError::DuplicateHash) && t == s
    } else {
        match r {
            Ok(k) => {
                &&& k < t.len()
                &&& t[k as int] == x
                &&& forall|e: Unconfirmed<T>| #[trigger] t.contains(e) <==> s.contains(e) || e == x
                &&& t.len() == s.len() + 1
                &&& no_disturb(s, x) ==> t == s.insert(k as int, x) && placed(s, x, k as int)
            },
            Err(_) => false,
        }
    }
}

/// Follows the parent links that `linked_back` gives down to entry `lo`:
/// every entry from `lo` on ranks below `bound` when entry `lo` does.
proof fn lemma_linked_rank<T>(
    d: Seq<Unconfirmed<T>>,
    lo: int,
    rank: spec_fn(TxHash) -> nat,
    bound: nat,
    k: int,
)
    requires
        0 <= lo <= k < d.len(),
        rank(d[lo].hash) < bound,
        forall|j: int| lo < j < d.len() ==> #[trigger] linked_back(d, lo, j),
        forall|j: int| lo <= j < d.len() ==> ranked_entry(#[trigger] d[j], rank),
    ensures
        rank(d[k].hash) < bound,
    decreases k,
{
    if k > lo {
        assert(linked_back(d, lo, k));
        let m = choose|m: int| lo <= m < k && #[trigger] depends_on(d[k], d[m].hash);
        lemma_linked_rank(d, lo, rank, bound, m);
        assert(ranked_entry(d[k], rank));
        assert(d[k].depends@.contains(d[m].hash));
    }
}

/// `d` was in `s` and is not in `t`.
pub open spec fn gone<T>(s: Seq<Unconfirmed<T>>, t: Seq<Unconfirmed<T>>, d: Unconfirmed<T>) -> bool {
    s.contains(d) && !t.contains(d)
}

/// No entry left in `t` depends on an entry that went from `s`.
pub open spec fn closed_removal<T>(s: Seq<Unconfirmed<T>>, t: Seq<Unconfirmed<T>>) -> bool {
    forall|e: Unconfirmed<T>, d: Unconfirmed<T>|
        #[trigger] t.contains(e) && #[trigger] gone(s, t, d) ==> !depends_on(e, d.hash)
}

/// Every entry that went from `s` is a root, or depends on another entry that
/// went.
pub open spec fn removal_from<T>(
    s: Seq<Unconfirmed<T>>,
    t: Seq<Unconfirmed<T>>,
    root: spec_fn(Unconfirmed<T>) -> bool,
) -> bool {
    forall|d: Unconfirmed<T>|
        #[trigger] gone(s, t, d) ==> root(d) || exists|d2: Unconfirmed<T>|
            #[trigger] gone(s, t, d2) && depends_on(d, d2.hash)
}

/// What `remove` of hash `h` does to a pool `s`, giving `t` and result `r`.
pub open spec fn remove_post<T>(
    s: Seq<Unconfirmed<T>>,
    h: TxHash,
    t: Seq<Unconfirmed<T>>,
    r: Result<(), PoolError>,
) -> bool {
    if !has_hash(s, h) {
        r == Err::<(), PoolError>(PoolError::NotFound) && t == s
    } else {
        &&& r == Ok::<(), PoolError>(())
        &&& forall|e: Unconfirmed<T>| #[trigger] t.contains(e) <==> s.contains(e) && e.hash != h
        &&& exists|p: Seq<Unconfirmed<T>>, d: Seq<Unconfirmed<T>>|
            #[trigger] closure_split(s, h, p, d) && pushes_all(p, d.drop_first(), t) && keeps_order(
                s,
                t,
                Set::new(|x: TxHash| has_hash(p, x)),
            )
        &&& forall|j: int|
            0 <= j < s.len() && s[j].hash == h && (forall|i: int|
                0 <= i < s.len() ==> !depends_on(#[trigger] s[i], h)) ==> t == s.remove(j)
    }
}

/// What `remove_with_depends` of hash `h` does to a pool `s`, giving `t` and
/// result `r`.
pub open spec fn remove_with_depends_post<T>(
    s: Seq<Unconfirmed<T>>,
    h: TxHash,
    t: Seq<Unconfirmed<T>>,
    r: Result<usize, PoolError>,
) -> bool {
    if !has_hash(s, h) {
        r == Err::<usize, PoolError>(PoolError::NotFound) && t == s
    } else {
        &&& r == Ok::<usize, PoolError>((s.len() - t.len()) as usize)
        &&& is_subseq(t, s)
        &&& !has_hash(t, h)
        &&& closed_removal(s, t)
        &&& removal_from(s, t, |d: Unconfirmed<T>| d.hash == h)
    }
}

/// `t` is what pushing the entries of `buf` one after another into `p` gives.
pub open spec fn pushes_all<T>(p: Seq<Unconfirmed<T>>, buf: Seq<Unconfirmed<T>>, t: Seq<Unconfirmed<T>>) -> bool
    decreases buf.len(),
{
    if buf.len() == 0 {
        t == p
    } else {
        exists|mid: Seq<Unconfirmed<T>>, k: usize|
            pushes_all(p, buf.drop_last(), mid) && #[trigger] push_post(mid, buf.last(), t, Ok(k))
    }
}

/// Taking `h` with everything that depends on it out of `s` leaves `p` and
/// takes `d`: `h`'s entry first, each later entry depending on an earlier one,
/// nothing left in `p` depending on anything in `d`, and `p` in the order it
/// had in `s`.
pub open spec fn closure_split<T>(
    s: Seq<Unconfirmed<T>>,
    h: TxHash,
    p: Seq<Unconfirmed<T>>,
    d: Seq<Unconfirmed<T>>,
) -> bool {
    &&& d.len() > 0
    &&& d[0].hash == h
    &&& is_subseq(p, s)
    &&& forall|e: Unconfirmed<T>| #[trigger] s.contains(e) <==> p.contains(e) || d.contains(e)
    &&& disjoint(p, d)
    &&& distinct_hashes(d)
    &&& forall|i: int, k: int| 0 <= i < p.len() && 0 <= k < d.len() ==> !depends_on(#[trigger] p[i], #[trigger] d[k].hash)
    &&& forall|k: int| 0 < k < d.len() ==> #[trigger] linked_back(d, 0, k)
}

/// The total `size` of the first `n` entries of `s`.
pub open spec fn size_sum<T>(s: Seq<Unconfirmed<T>>, n: int) -> int
    decreases n,
{
    if n <= 0 || n > s.len() {
        0
    } else {
        size_sum(s, n - 1) + s[n - 1].size
    }
}

/// The handles of the entries of `s`, in order.
pub open spec fn objs_of<T>(s: Seq<Unconfirmed<T>>) -> Seq<T> {
    s.map_values(|e: Unconfirmed<T>| e.obj)
}

/// A subsequence of a sequence with unique hashes has unique hashes.
proof fn lemma_subseq_distinct<T>(a: Seq<Unconfirmed<T>>, b: Seq<Unconfirmed<T>>)
    requires
        is_subseq(a, b),
        distinct_hashes(b),
    ensures
        distinct_hashes(a),
{
    let f = choose|f: spec_fn(int) -> int| embeds(a, b, f);
    assert forall|i: int, j: int| 0 <= i < a.len() && 0 <= j < a.len() && i != j implies #[trigger] a[i].hash
        != #[trigger] a[j].hash by {
        if i < j {
            assert(f(i) < f(j));
        } else {
            assert(f(j) < f(i));
        }
        assert(a[i] == b[f(i)]);
        assert(a[j] == b[f(j)]);
    }
}

proof fn lemma_subseq_push<A>(a: Seq<A>, b: Seq<A>, x: A)
    requires
        is_subseq(a, b),
    ensures
        is_subseq(a.push(x), b.push(x)),
        is_subseq(a, b.push(x)),
{
    let f = choose|f: spec_fn(int) -> int| embeds(a, b, f);
    let g = |i: int| if i < a.len() { f(i) } else { b.len() as int };
    assert forall|i: int, j: int| 0 <= i < j < a.push(x).len() implies #[trigger] g(i) < #[trigger] g(j) by {
        if j < a.len() {
            assert(f(i) < f(j));
        } else {
            assert(f(i) < b.len());
        }
    }
    assert(embeds(a.push(x), b.push(x), g));
    assert(embeds(a, b.push(x), f));
}

/// Disjointness carries over to anything whose entries all come from `b`.
proof fn lemma_disjoint_subset<T>(p: Seq<Unconfirmed<T>>, a: Seq<Unconfirmed<T>>, b: Seq<Unconfirmed<T>>)
    requires
        disjoint(p, b),
        forall|e: Unconfirmed<T>| #[trigger] a.contains(e) ==> b.contains(e),
    ensures
        disjoint(p, a),
{
    assert forall|i: int, j: int| 0 <= i < p.len() && 0 <= j < a.len() implies #[trigger] p[i].hash
        != #[trigger] a[j].hash by {
        assert(a.contains(a[j]));
        let q = choose|q: int| 0 <= q < b.len() && b[q] == a[j];
        assert(p[i].hash != b[q].hash);
    }
}

/// Reads the outcome of taking closures out of `s` (leaving `t`, the entries
/// taken in `d`) as statements about what went.
proof fn lemma_closure_facts<T>(
    s: Seq<Unconfirmed<T>>,
    t: Seq<Unconfirmed<T>>,
    d: Seq<Unconfirmed<T>>,
    root: spec_fn(Unconfirmed<T>) -> bool,
)
    requires
        disjoint(t, d),
        forall|e: Unconfirmed<T>| #[trigger] s.contains(e) <==> t.contains(e) || d.contains(e),
        forall|i: int, k: int| 0 <= i < t.len() && 0 <= k < d.len() ==> !depends_on(#[trigger] t[i], #[trigger] d[k].hash),
        forall|k: int| 0 <= k < d.len() ==> root(#[trigger] d[k]) || linked_back(d, 0, k),
    ensures
        forall|e: Unconfirmed<T>| #[trigger] gone(s, t, e) <==> d.contains(e),
        closed_removal(s, t),
        removal_from(s, t, root),
{
    assert forall|e: Unconfirmed<T>| #[trigger] gone(s, t, e) <==> d.contains(e) by {
        if d.contains(e) && t.contains(e) {
            let i = choose|i: int| 0 <= i < t.len() && t[i] == e;
            let k = choose|k: int| 0 <= k < d.len() && d[k] == e;
            assert(t[i].hash != d[k].hash);
        }
    }
    assert forall|e: Unconfirmed<T>, x: Unconfirmed<T>| #[trigger] t.contains(e) && #[trigger] gone(s, t, x) implies !depends_on(e, x.hash) by {
        let i = choose|i: int| 0 <= i < t.len() && t[i] == e;
        let k = choose|k: int| 0 <= k < d.len() && d[k] == x;
        assert(!depends_on(t[i], d[k].hash));
    }
    assert forall|x: Unconfirmed<T>| #[trigger] gone(s, t, x) implies root(x) || exists|x2: Unconfirmed<T>|
        #[trigger] gone(s, t, x2) && depends_on(x, x2.hash) by {
        let k = choose|k: int| 0 <= k < d.len() && d[k] == x;
        if !root(x) {
            assert(linked_back(d, 0, k));
            let m = choose|m: int| 0 <= m < k && #[trigger] depends_on(d[k], d[m].hash);
            assert(d.contains(d[m]));
            assert(gone(s, t, d[m]));
        }
    }
}

/// `e` depends on hash `h` directly, or names as a parent an entry of `s`
/// that does, with at most `n` such steps through entries of `s`.
pub open spec fn depends_within<T>(s: Seq<Unconfirmed<T>>, e: Unconfirmed<T>, h: TxHash, n: nat) -> bool
    decreases n,
{
    depends_on(e, h) || (n > 0 && exists|i: int|
        0 <= i < s.len() && #[trigger] depends_on(e, s[i].hash) && depends_within(s, s[i], h, (n - 1) as nat))
}

/// No entry of `s` ranks ahead of an entry standing before it.
pub open spec fn priority_sorted<T>(s: Seq<Unconfirmed<T>>) -> bool {
    forall|i: int, j: int| 0 <= i < j < s.len() ==> !#[trigger] outranks(s[j], s[i])
}

/// In a well-formed pool the list of hashes has no repeats.
pub proof fn lemma_hash_list_unique<T>(s: Seq<Unconfirmed<T>>)
    requires
        pool_ok(s),
    ensures
        s.map_values(|e: Unconfirmed<T>| e.hash).no_duplicates(),
{
    let m = s.map_values(|e: Unconfirmed<T>| e.hash);
    assert forall|i: int, j: int| 0 <= i < m.len() && 0 <= j < m.len() && i != j implies m[i] != m[j] by {
        assert(s[i].hash != s[j].hash);
    }
}

/// In a well-formed pool each entry stands after every parent of it that is
/// present.
pub proof fn lemma_parents_before_children<T>(s: Seq<Unconfirmed<T>>, i: int, p: TxHash)
    requires
        pool_ok(s),
        0 <= i < s.len(),
        depends_on(s[i], p),
        has_hash(s, p),
    ensures
        index_of(s, p) < i,
        s[index_of(s, p)].hash == p,
{
    let j = choose|j: int| 0 <= j < s.len() && s[j].hash == p;
    lemma_index_of(s, j);
    assert(s[i].depends@.contains(s[j].hash));
}

/// A push refused for a duplicate hash leaves the pool exactly as it was.
pub proof fn lemma_duplicate_push_unchanged<T>(
    s: Seq<Unconfirmed<T>>,
    x: Unconfirmed<T>,
    t: Seq<Unconfirmed<T>>,
    r: Result<usize, PoolError>,
)
    requires
        has_hash(s, x.hash),
        push_post(s, x, t, r),
    ensures
        t == s,
        r == Err::<usize, PoolError>(PoolError::DuplicateHash),
{
}

/// Among entries with no dependency on one another the pool stays in
/// priority order: higher price first, then earlier time.
pub proof fn lemma_push_keeps_priority<T>(
    s: Seq<Unconfirmed<T>>,
    x: Unconfirmed<T>,
    t: Seq<Unconfirmed<T>>,
    r: Result<usize, PoolError>,
)
    requires
        pool_ok(s),
        priority_sorted(s),
        forall|i: int| 0 <= i < s.len() ==> !depends_on(x, #[trigger] s[i].hash),
        forall|i: int| 0 <= i < s.len() ==> !depends_on(#[trigger] s[i], x.hash),
        push_post(s, x, t, r),
    ensures
        priority_sorted(t),
{
    if !has_hash(s, x.hash) {
        let k = r.unwrap() as int;
        assert(t == s.insert(k, x));
        assert forall|i: int, j: int| 0 <= i < j < t.len() implies !#[trigger] outranks(t[j], t[i]) by {
            if i == k {
                let jj = j - 1;
                assert(t[j] == s[jj]);
                if k < s.len() {
                    assert(outranks(x, s[k]));
                    if jj > k {
                        assert(!outranks(s[jj], s[k]));
                    }
                }
            } else if j == k {
                assert(t[i] == s[i]);
                assert(forall|q: int| i <= q < s.len() ==> !depends_on(x, #[trigger] s[q].hash));
                assert(!outranks(x, s[i]));
            } else {
                let ii = if i < k { i } else { i - 1 };
                let jj = if j < k { j } else { j - 1 };
                assert(t[i] == s[ii]);
                assert(t[j] == s[jj]);
            }
        }
    }
}

/// Pushing an entry that no present entry depends on and then removing it
/// gives back the pool exactly, order included.
pub proof fn lemma_push_remove_round_trip<T>(
    s: Seq<Unconfirmed<T>>,
    x: Unconfirmed<T>,
    t: Seq<Unconfirmed<T>>,
    r: Result<usize, PoolError>,
    u: Seq<Unconfirmed<T>>,
    r2: Result<(), PoolError>,
)
    requires
        pool_ok(s),
        !has_hash(s, x.hash),
        acyclic_with(s, x.hash, x.depends@),
        forall|i: int| 0 <= i < s.len() ==> !depends_on(#[trigger] s[i], x.hash),
        push_post(s, x, t, r),
        remove_post(t, x.hash, u, r2),
    ensures
        u == s,
{
    let rank = choose|rank: spec_fn(TxHash) -> nat|
        ranked(s, rank) && (forall|p: TxHash| #[trigger] x.depends@.contains(p) ==> rank(x.hash) < rank(p));
    let k = r.unwrap() as int;
    assert(t == s.insert(k, x));
    assert(has_hash(t, x.hash)) by {
        assert(t[k].hash == x.hash);
    }
    assert forall|i: int| 0 <= i < t.len() implies !depends_on(#[trigger] t[i], x.hash) by {
        if i == k {
            if depends_on(x, x.hash) {
                assert(rank(x.hash) < rank(x.hash));
            }
        } else {
            let ii = if i < k { i } else { i - 1 };
            assert(t[i] == s[ii]);
        }
    }
    assert(t[k].hash == x.hash);
    assert(u == t.remove(k));
    assert(u =~= s);
}

/// After `remove_with_depends(h)` no entry left in the pool depends on `h`,
/// directly or through a chain of entries that are still there.
pub proof fn lemma_no_dependent_left<T>(
    s: Seq<Unconfirmed<T>>,
    h: TxHash,
    t: Seq<Unconfirmed<T>>,
    r: Result<usize, PoolError>,
    e: Unconfirmed<T>,
    n: nat,
)
    requires
        pool_ok(s),
        has_hash(s, h),
        remove_with_depends_post(s, h, t, r),
        t.contains(e),
    ensures
        !depends_within(t, e, h, n),
    decreases n,
{
    {
        let j = choose|j: int| 0 <= j < s.len() && #[trigger] s[j].hash == h;
        assert(s.contains(s[j]));
        if t.contains(s[j]) {
            let q = choose|q: int| 0 <= q < t.len() && t[q] == s[j];
            assert(has_hash(t, h)) by {
                assert(t[q].hash == h);
            }
        }
        assert(gone(s, t, s[j]));
        assert(!depends_on(e, h));
        if depends_within(t, e, h, n) {
            let i = choose|i: int|
                0 <= i < t.len() && #[trigger] depends_on(e, t[i].hash) && depends_within(t, t[i], h, (n - 1) as nat);
            assert(t.contains(t[i]));
            lemma_no_dependent_left(s, h, t, r, t[i], (n - 1) as nat);
        }
    }
}

/// `a` stands before `b` in `s`.
pub open spec fn before<T>(s: Seq<Unconfirmed<T>>, a: Unconfirmed<T>, b: Unconfirmed<T>) -> bool {
    exists|i: int, j: int| 0 <= i < j < s.len() && #[trigger] s[i] == a && #[trigger] s[j] == b
}

/// Entries whose hashes are in `fixed` stand in `t` in the order they had in
/// `s`.
pub open spec fn keeps_order<T>(s: Seq<Unconfirmed<T>>, t: Seq<Unconfirmed<T>>, fixed: Set<TxHash>) -> bool {
    forall|a: Unconfirmed<T>, b: Unconfirmed<T>|
        fixed.contains(a.hash) && fixed.contains(b.hash) && #[trigger] before(t, a, b) ==> before(s, a, b)
}

/// Entries of `s` whose hashes are in `fixed` depend on no entry of `s`
/// outside it.
pub open spec fn fixed_closed<T>(s: Seq<Unconfirmed<T>>, fixed: Set<TxHash>) -> bool {
    forall|e: Unconfirmed<T>, f: Unconfirmed<T>|
        #[trigger] s.contains(e) && #[trigger] s.contains(f) && fixed.contains(e.hash) && #[trigger] depends_on(
            e,
            f.hash,
        ) ==> fixed.contains(f.hash)
}

proof fn lemma_subseq_keeps_order<T>(a: Seq<Unconfirmed<T>>, b: Seq<Unconfirmed<T>>, fixed: Set<TxHash>)
    requires
        is_subseq(a, b),
    ensures
        keeps_order(b, a, fixed),
{
    let f = choose|f: spec_fn(int) -> int| embeds(a, b, f);
    assert forall|x: Unconfirmed<T>, y: Unconfirmed<T>|
        fixed.contains(x.hash) && fixed.contains(y.hash) && #[trigger] before(a, x, y) implies before(b, x, y) by {
        let (i, j) = choose|i: int, j: int| 0 <= i < j < a.len() && #[trigger] a[i] == x && #[trigger] a[j] == y;
        assert(f(i) < f(j));
        assert(b[f(i)] == x && b[f(j)] == y);
    }
}

proof fn lemma_insert_keeps_order<T>(s: Seq<Unconfirmed<T>>, k: int, x: Unconfirmed<T>, fixed: Set<TxHash>)
    requires
        0 <= k <= s.len(),
        !fixed.contains(x.hash),
    ensures
        keeps_order(s, s.insert(k, x), fixed),
{
    let t = s.insert(k, x);
    assert forall|a: Unconfirmed<T>, b: Unconfirmed<T>|
        fixed.contains(a.hash) && fixed.contains(b.hash) && #[trigger] before(t, a, b) implies before(s, a, b) by {
        let (i, j) = choose|i: int, j: int| 0 <= i < j < t.len() && #[trigger] t[i] == a && #[trigger] t[j] == b;
        let ii = if i < k { i } else { i - 1 };
        let jj = if j < k { j } else { j - 1 };
        assert(i != k && j != k);
        assert(s[ii] == a && s[jj] == b);
    }
}

proof fn lemma_keeps_order_trans<T>(
    s: Seq<Unconfirmed<T>>,
    t: Seq<Unconfirmed<T>>,
    u: Seq<Unconfirmed<T>>,
    fixed: Set<TxHash>,
)
    requires
        keeps_order(s, t, fixed),
        keeps_order(t, u, fixed),
    ensures
        keeps_order(s, u, fixed),
{
    assert forall|a: Unconfirmed<T>, b: Unconfirmed<T>|
        fixed.contains(a.hash) && fixed.contains(b.hash) && #[trigger] before(u, a, b) implies before(s, a, b) by {
        assert(before(t, a, b));
    }
}

/// Along a chain of entries each depending on an earlier one, starting from
/// an entry outside `fixed`, no entry is in `fixed`.
proof fn lemma_linked_unfixed<T>(
    d: Seq<Unconfirmed<T>>,
    lo: int,
    s: Seq<Unconfirmed<T>>,
    fixed: Set<TxHash>,
    k: int,
)
    requires
        0 <= lo <= k < d.len(),
        !fixed.contains(d[lo].hash),
        forall|j: int| lo < j < d.len() ==> #[trigger] linked_back(d, lo, j),
        forall|j: int| lo <= j < d.len() ==> s.contains(#[trigger] d[j]),
        fixed_closed(s, fixed),
    ensures
        !fixed.contains(d[k].hash),
    decreases k,
{
    if k > lo {
        assert(linked_back(d, lo, k));
        let m = choose|m: int| lo <= m < k && #[trigger] depends_on(d[k], d[m].hash);
        lemma_linked_unfixed(d, lo, s, fixed, m);
        assert(s.contains(d[k]) && s.contains(d[m]));
    }
}

/// A pool with unique hashes that holds the entries of `s` and one new entry
/// `x` has one entry more than `s`.
proof fn lemma_one_more<T>(s: Seq<Unconfirmed<T>>, x: Unconfirmed<T>, t: Seq<Unconfirmed<T>>)
    requires
        distinct_hashes(s),
        distinct_hashes(t),
        !has_hash(s, x.hash),
        forall|e: Unconfirmed<T>| #[trigger] t.contains(e) <==> s.contains(e) || e == x,
    ensures
        t.len() == s.len() + 1,
{
    broadcast use vstd::set::group_set_axioms, vstd::seq_lib::group_seq_properties;

    assert(s.no_duplicates()) by {
        assert forall|i: int, j: int| 0 <= i < s.len() && 0 <= j < s.len() && i != j implies s[i] != s[j] by {
            assert(s[i].hash != s[j].hash);
        }
    }
    assert(t.no_duplicates()) by {
        assert forall|i: int, j: int| 0 <= i < t.len() && 0 <= j < t.len() && i != j implies t[i] != t[j] by {
            assert(t[i].hash != t[j].hash);
        }
    }
    s.unique_seq_to_set();
    t.unique_seq_to_set();
    assert(!s.contains(x)) by {
        if s.contains(x) {
            let i = choose|i: int| 0 <= i < s.len() && s[i] == x;
            assert(s[i].hash == x.hash);
        }
    }
    assert(t.to_set() =~= s.to_set().insert(x));
}

/// Returns whether `v` holds `h`.
fn holds_hash(v: &Vec<TxHash>, h: &TxHash) -> (r: bool)
    ensures
        r == v@.contains(*h),
{
    let mut i: usize = 0;
    while i < v.len()
        invariant
            i <= v@.len(),
            forall|k: int| 0 <= k < i ==> v@[k] != *h,
        decreases v@.len() - i,
    {
        if v[i] == *h {
            return true;
        }
        i = i + 1;
    }
    false
}

/// Whether `a` ranks strictly ahead of `b`.
fn ranks_ahead<T>(a: &Unconfirmed<T>, b: &Unconfirmed<T>) -> (r: bool)
    ensures
        r == outranks(*a, *b),
{
    a.price > b.price || (a.price == b.price && a.time < b.time)
}

/// The pool: entries in priority order, index 0 first.
///
/// Parents stand before their children (`wf`). Priority (higher price first,
/// then earlier time) is kept by where `push` places each entry (`placed`):
/// after its last parent, no later than its first child, and ahead of the
/// first entry between those that it outranks. It is not an order over every
/// pair of entries: in `[P (price 1), Q (price 9, depends on P)]`, pushing
/// `R (price 5)` gives `[R, P, Q]`, with `R` ahead of `Q` though `Q` does not
/// depend on `R`. Among entries with no dependencies between them the pool
/// stays sorted by priority (`lemma_push_keeps_priority`).
pub struct MemoryPool<T> {
    unconfirmed: Vec<Unconfirmed<T>>,
}

impl<T> View for MemoryPool<T> {
    type V = Seq<Unconfirmed<T>>;

    closed spec fn view(&self) -> Seq<Unconfirmed<T>> {
        self.unconfirmed@
    }
}

impl<T: Copy> MemoryPool<T> {
    /// The pool invariants hold.
    pub open spec fn wf(&self) -> bool {
        pool_ok(self@)
    }

    /// An empty pool.
    pub fn new() -> (r: MemoryPool<T>)
        ensures
            r.wf(),
            r@ == Seq::<Unconfirmed<T>>::empty(),
    {
        MemoryPool { unconfirmed: Vec::new() }
    }

    /// The index of the entry with hash `hash`, if any.
    pub fn position(&self, hash: &TxHash) -> (r: Option<usize>)
        ensures
            match r {
                Some(i) => i < self@.len() && self@[i as int].hash == *hash,
                None => !has_hash(self@, *hash),
            },
    {
        let mut i: usize = 0;
        while i < self.unconfirmed.len()
            invariant
                i <= self@.len(),
                self@ == self.unconfirmed@,
                forall|k: int| 0 <= k < i ==> self@[k].hash != *hash,
            decreases self@.len() - i,
        {
            if self.unconfirmed[i].hash == *hash {
                return Some(i);
            }
            i = i + 1;
        }
        None
    }

    /// The index of the first entry that names `hash` among its parents.
    fn first_dependent(&self, hash: &TxHash) -> (r: Option<usize>)
        ensures
            match r {
                Some(i) => i < self@.len() && depends_on(self@[i as int], *hash),
                None => forall|k: int| 0 <= k < self@.len() ==> !depends_on(#[trigger] self@[k], *hash),
            },
    {
        let mut i: usize = 0;
        while i < self.unconfirmed.len()
            invariant
                i <= self@.len(),
                self@ == self.unconfirmed@,
                forall|k: int| 0 <= k < i ==> !depends_on(#[trigger] self@[k], *hash),
            decreases self@.len() - i,
        {
            if holds_hash(&self.unconfirmed[i].depends, hash) {
                return Some(i);
            }
            i = i + 1;
        }
        None
    }

    /// The number of entries.
    pub fn length(&self) -> (r: usize)
        ensures
            r == self@.len(),
    {
        self.unconfirmed.len()
    }

    /// Whether an entry with hash `hash` is in the pool.
    pub fn exist(&self, hash: &TxHash) -> (r: bool)
        ensures
            r == has_hash(self@, *hash),
    {
        self.position(hash).is_some()
    }

    /// The handle of the entry with hash `hash`, if any.
    pub fn get_obj(&self, hash: &TxHash) -> (r: Option<T>)
        ensures
            match r {
                Some(o) => exists|i: int| 0 <= i < self@.len() && #[trigger] self@[i].hash == *hash && self@[i].obj == o,
                None => !has_hash(self@, *hash),
            },
    {
        match self.position(hash) {
            Some(i) => Some(self.unconfirmed[i].obj),
            None => None,
        }
    }

    /// Inserts a new entry and returns its index once the pool has settled.
    /// Fails, leaving the pool as it was, when the hash is already present.
    /// The entry and the pool must not form a dependency cycle.
    pub fn push(
        &mut self,
        obj: T,
        hash: TxHash,
        depends: Vec<TxHash>,
        price: u32,
        time: u32,
        deadline: u32,
        size: u32,
    ) -> (r: Result<usize, PoolError>)
        requires
            old(self).wf(),
            has_hash(old(self)@, hash) || acyclic_with(old(self)@, hash, depends@),
        ensures
            final(self).wf(),
            push_post(
                old(self)@,
                (Unconfirmed { obj, hash, depends, price, time, deadline, size }),
                final(self)@,
                r,
            ),
    {
        if self.position(&hash).is_some() {
            return Err(PoolError::DuplicateHash);
        }
        let ghost deps = depends@;
        let x = Unconfirmed { obj, hash, depends, price, time, deadline, size };
        let ghost rank = choose|rank: spec_fn(TxHash) -> nat|
            ranked(self@, rank) && (forall|p: TxHash| #[trigger] deps.contains(p) ==> rank(hash) < rank(p));
        proof {
            assert forall|e: Unconfirmed<T>| #[trigger] self@.push(x).contains(e) implies ranked_entry(e, rank) by {
                let i = choose|i: int| 0 <= i < self@.push(x).len() && self@.push(x)[i] == e;
                if i < self@.len() {
                    assert(self@.contains(self@[i]));
                }
            }
        }
        self.push_rec(x, Ghost(rank), Ghost(Set::<TxHash>::empty()))
    }

    /// Removes the entry with hash `hash`. Entries that depend on it are taken
    /// out with it and pushed again, so the order is repaired around the gap.
    pub fn remove(&mut self, hash: &TxHash) -> (r: Result<(), PoolError>)
        requires
            old(self).wf(),
        ensures
            final(self).wf(),
            remove_post(old(self)@, *hash, final(self)@, r),
    {
        let ghost p0 = self@;
        proof {
            lemma_pool_ranked(p0);
        }
        let mut deleted: Vec<Unconfirmed<T>> = Vec::new();
        self.take_closure(hash, &mut deleted);
        if deleted.len() == 0 {
            return Err(PoolError::NotFound);
        }
        let ghost d0 = deleted@;
        let ghost p1 = self@;
        let root = deleted.remove(0);
        proof {
            assert(d0.subrange(0, d0.len() as int) =~= d0);
            assert(deleted@ == d0.subrange(1, d0.len() as int));
            let f = |i: int| i + 1;
            assert(embeds(deleted@, d0, f));
            lemma_subseq_distinct(deleted@, d0);
            assert forall|e: Unconfirmed<T>| #[trigger] deleted@.contains(e) implies d0.contains(e) by {
                let q = choose|q: int| 0 <= q < deleted@.len() && deleted@[q] == e;
                assert(d0[q + 1] == e);
            }
            lemma_disjoint_subset(p1, deleted@, d0);
            assert forall|e: Unconfirmed<T>| #[trigger] (p1 + deleted@).contains(e) implies p0.contains(e) by {
                lemma_concat_contains(p1, deleted@, e);
                if p1.contains(e) {
                    lemma_subseq_contains(p1, p0, e);
                }
            }
            lemma_ranked_subset(p1 + deleted@, p0, order_rank(p0));
            assert forall|k: int| 0 <= k < deleted@.len() implies order_rank(p0)(#[trigger] deleted@[k].hash) < p0.len() + 2 by {
            }
        }
        let ghost buf = deleted@;
        let ghost fixed = Set::new(|x: TxHash| has_hash(p1, x));
        proof {
            assert forall|e: Unconfirmed<T>, f: Unconfirmed<T>|
                #[trigger] p1.contains(e) && #[trigger] p1.contains(f) && fixed.contains(e.hash) && #[trigger] depends_on(
                    e,
                    f.hash,
                ) implies fixed.contains(f.hash) by {
                let q = choose|q: int| 0 <= q < p1.len() && p1[q] == f;
                assert(has_hash(p1, f.hash));
            }
            assert forall|b: Unconfirmed<T>| #[trigger] buf.contains(b) implies !fixed.contains(b.hash) by {
                let q = choose|q: int| 0 <= q < buf.len() && buf[q] == b;
                assert(d0[q + 1] == b);
                if has_hash(p1, b.hash) {
                    let i = choose|i: int| 0 <= i < p1.len() && #[trigger] p1[i].hash == b.hash;
                    assert(p1[i].hash != d0[q + 1].hash);
                }
            }
            assert forall|e: Unconfirmed<T>, b: Unconfirmed<T>|
                #[trigger] p1.contains(e) && #[trigger] buf.contains(b) && fixed.contains(e.hash) implies !depends_on(
                e,
                b.hash,
            ) by {
                let q = choose|q: int| 0 <= q < buf.len() && buf[q] == b;
                let i = choose|i: int| 0 <= i < p1.len() && p1[i] == e;
                assert(d0[q + 1] == b);
                assert(!depends_on(p1[i], d0[q + 1].hash));
            }
            lemma_subseq_keeps_order(p1, p0, fixed);
        }
        self.push_all(deleted, Ghost(order_rank(p0)), Ghost((p0.len() + 2) as nat), Ghost(fixed));
        proof {
            lemma_keeps_order_trans(p0, p1, self@, fixed);
            let t = self@;
            assert(d0[0] == root);
            assert(root.hash == *hash);
            assert(d0 =~= seq![root] + buf);
            assert forall|e: Unconfirmed<T>| #[trigger] t.contains(e) <==> p0.contains(e) && e.hash != *hash by {
                assert(t.contains(e) <==> p1.contains(e) || buf.contains(e));
                assert(p0.contains(e) <==> p1.contains(e) || d0.subrange(0, d0.len() as int).contains(e));
                lemma_concat_contains(seq![root], buf, e);
                if p1.contains(e) {
                    let i = choose|i: int| 0 <= i < p1.len() && p1[i] == e;
                    assert(p1[i].hash != *hash);
                }
                if buf.contains(e) {
                    let q = choose|q: int| 0 <= q < buf.len() && buf[q] == e;
                    assert(d0[q + 1] == e);
                    assert(d0[0].hash != d0[q + 1].hash);
                }
                if seq![root].contains(e) {
                    assert(seq![root][0] == root);
                }
            }
            assert(d0.subrange(0, d0.len() as int) =~= d0);
            assert(buf =~= d0.drop_first());
            assert forall|e: Unconfirmed<T>| #[trigger] p0.contains(e) <==> p1.contains(e) || d0.contains(e) by {
                assert(p0.contains(e) <==> p1.contains(e) || d0.subrange(0, d0.len() as int).contains(e));
            }
            assert(closure_split(p0, *hash, p1, d0));
        }
        Ok(())
    }

    /// Removes every entry whose hash is in `hashes` (absent hashes are
    /// ignored); entries that depend on a removed one and are not listed are
    /// pushed again, in the order they were taken out.
    #[verifier::rlimit(40)]
    pub fn remove_many(&mut self, hashes: &Vec<TxHash>)
        requires
            old(self).wf(),
        ensures
            final(self).wf(),
            forall|e: Unconfirmed<T>|
                #[trigger] final(self)@.contains(e) <==> old(self)@.contains(e) && !hashes@.contains(e.hash),
            exists|p: Seq<Unconfirmed<T>>, kept: Seq<Unconfirmed<T>>|
                is_subseq(p, old(self)@) && #[trigger] pushes_all(p, kept, final(self)@) && (forall|e: Unconfirmed<T>|
                    #[trigger] kept.contains(e) ==> old(self)@.contains(e) && !hashes@.contains(e.hash)) && keeps_order(
                    old(self)@,
                    final(self)@,
                    Set::new(|x: TxHash| has_hash(p, x)),
                ),
    {
        let ghost p0 = self@;
        proof {
            lemma_pool_ranked(p0);
            lemma_subseq_refl(p0);
        }
        let mut deleted: Vec<Unconfirmed<T>> = Vec::new();
        let mut i: usize = 0;
        while i < hashes.len()
            invariant
                i <= hashes@.len(),
                p0 == old(self)@,
                pool_ok(p0),
                pool_ok(self@),
                distinct_hashes(deleted@),
                disjoint(self@, deleted@),
                is_subseq(self@, p0),
                forall|e: Unconfirmed<T>| #[trigger] p0.contains(e) <==> self@.contains(e) || deleted@.contains(e),
                forall|k: int| 0 <= k < i ==> !has_hash(self@, #[trigger] hashes@[k]),
                forall|a: int, k: int|
                    0 <= a < self@.len() && 0 <= k < deleted@.len() ==> !depends_on(#[trigger] self@[a], #[trigger] deleted@[k].hash),
            decreases hashes@.len() - i,
        {
            let ghost p1 = self@;
            let ghost d1 = deleted@;
            self.take_closure(&hashes[i], &mut deleted);
            proof {
                let p2 = self@;
                let d2 = deleted@;
                let n2 = d2.subrange(d1.len() as int, d2.len() as int);
                lemma_subseq_trans(p2, p1, p0);
                assert(d2 =~= d1 + n2);
                assert forall|e: Unconfirmed<T>| #[trigger] p0.contains(e) <==> p2.contains(e) || d2.contains(e) by {
                    lemma_concat_contains(d1, n2, e);
                    if p2.contains(e) {
                        lemma_subseq_contains(p2, p1, e);
                    }
                }
                let f = choose|f: spec_fn(int) -> int| embeds(p2, p1, f);
                assert forall|a: int, k: int|
                    0 <= a < p2.len() && 0 <= k < d2.len() implies !depends_on(#[trigger] p2[a], #[trigger] d2[k].hash) by {
                    if k < d1.len() {
                        assert(p2[a] == p1[f(a)]);
                        assert(d2[k] == d1[k]);
                        assert(!depends_on(p1[f(a)], d1[k].hash));
                    }
                }
                assert forall|k: int| 0 <= k < i + 1 implies !has_hash(p2, #[trigger] hashes@[k]) by {
                    if k < i && has_hash(p2, hashes@[k]) {
                        let q = choose|q: int| 0 <= q < p2.len() && #[trigger] p2[q].hash == hashes@[k];
                        assert(p2.contains(p2[q]));
                        lemma_subseq_contains(p2, p1, p2[q]);
                        let q1 = choose|q1: int| 0 <= q1 < p1.len() && p1[q1] == p2[q];
                        assert(p1[q1].hash == hashes@[k]);
                    }
                }
            }
            i = i + 1;
        }
        let ghost p1 = self@;
        let ghost d0 = deleted@;
        let mut kept: Vec<Unconfirmed<T>> = Vec::new();
        proof {
            lemma_subseq_refl(Seq::<Unconfirmed<T>>::empty());
            assert(d0.subrange(0, 0) =~= Seq::<Unconfirmed<T>>::empty());
            assert(kept@ =~= Seq::<Unconfirmed<T>>::empty());
            assert(deleted@ =~= d0.subrange(0, d0.len() as int));
        }
        while deleted.len() > 0
            invariant
                deleted@.len() <= d0.len(),
                deleted@ == d0.subrange(d0.len() - deleted@.len(), d0.len() as int),
                is_subseq(kept@, d0.subrange(0, d0.len() - deleted@.len())),
                forall|e: Unconfirmed<T>| #[trigger] kept@.contains(e) ==> !hashes@.contains(e.hash),
                forall|e: Unconfirmed<T>|
                    #[trigger] d0.contains(e) && !hashes@.contains(e.hash) ==> kept@.contains(e) || deleted@.contains(e),
            decreases deleted@.len(),
        {
            let ghost c = d0.len() - deleted@.len();
            let ghost k0 = kept@;
            let d = deleted.remove(0);
            proof {
                assert(d == d0[c]);
                assert(d0.subrange(0, c + 1) =~= d0.subrange(0, c).push(d));
                lemma_subseq_push(k0, d0.subrange(0, c), d);
                assert(deleted@ =~= d0.subrange(c + 1, d0.len() as int));
            }
            if !holds_hash(hashes, &d.hash) {
                kept.push(d);
            }
            proof {
                assert forall|e: Unconfirmed<T>|
                    #[trigger] d0.contains(e) && !hashes@.contains(e.hash) implies kept@.contains(e) || deleted@.contains(e) by {
                    if k0.contains(e) {
                        let q = choose|q: int| 0 <= q < k0.len() && k0[q] == e;
                        assert(kept@[q] == e);
                    } else {
                        let q = choose|q: int| 0 <= q < d0.len() - c && d0.subrange(c, d0.len() as int)[q] == e;
                        if q == 0 {
                            assert(kept@[kept@.len() - 1] == e);
                        } else {
                            assert(deleted@[q - 1] == e);
                        }
                    }
                }
                assert forall|e: Unconfirmed<T>| #[trigger] kept@.contains(e) implies !hashes@.contains(e.hash) by {
                    if k0.contains(e) {
                    } else {
                        assert(e == d);
                    }
                }
            }
        }
        proof {
            assert(d0.subrange(0, d0.len() as int) =~= d0);
            lemma_subseq_distinct(kept@, d0);
            assert forall|e: Unconfirmed<T>| #[trigger] kept@.contains(e) implies d0.contains(e) by {
                lemma_subseq_contains(kept@, d0, e);
            }
            lemma_disjoint_subset(p1, kept@, d0);
            assert forall|e: Unconfirmed<T>| #[trigger] (p1 + kept@).contains(e) implies p0.contains(e) by {
                lemma_concat_contains(p1, kept@, e);
                if p1.contains(e) {
                    lemma_subseq_contains(p1, p0, e);
                }
            }
            lemma_ranked_subset(p1 + kept@, p0, order_rank(p0));
            assert forall|k: int| 0 <= k < kept@.len() implies order_rank(p0)(#[trigger] kept@[k].hash) < p0.len() + 2 by {
            }
        }
        let ghost kept_entries = kept@;
        let ghost fixed = Set::new(|x: TxHash| has_hash(p1, x));
        proof {
            assert forall|e: Unconfirmed<T>, f: Unconfirmed<T>|
                #[trigger] p1.contains(e) && #[trigger] p1.contains(f) && fixed.contains(e.hash) && #[trigger] depends_on(
                    e,
                    f.hash,
                ) implies fixed.contains(f.hash) by {
                let q = choose|q: int| 0 <= q < p1.len() && p1[q] == f;
                assert(has_hash(p1, f.hash));
            }
            assert forall|b: Unconfirmed<T>| #[trigger] kept_entries.contains(b) implies !fixed.contains(b.hash) by {
                assert(d0.contains(b));
                let q = choose|q: int| 0 <= q < d0.len() && d0[q] == b;
                if has_hash(p1, b.hash) {
                    let i = choose|i: int| 0 <= i < p1.len() && #[trigger] p1[i].hash == b.hash;
                    assert(p1[i].hash != d0[q].hash);
                }
            }
            assert forall|e: Unconfirmed<T>, b: Unconfirmed<T>|
                #[trigger] p1.contains(e) && #[trigger] kept_entries.contains(b) && fixed.contains(e.hash) implies !depends_on(
                e,
                b.hash,
            ) by {
                assert(d0.contains(b));
                let q = choose|q: int| 0 <= q < d0.len() && d0[q] == b;
                let i = choose|i: int| 0 <= i < p1.len() && p1[i] == e;
                assert(!depends_on(p1[i], d0[q].hash));
            }
            lemma_subseq_keeps_order(p1, p0, fixed);
        }
        self.push_all(kept, Ghost(order_rank(p0)), Ghost((p0.len() + 2) as nat), Ghost(fixed));
        proof {
            assert forall|e: Unconfirmed<T>| #[trigger] kept_entries.contains(e) implies p0.contains(e)
                && !hashes@.contains(e.hash) by {
                assert(d0.contains(e));
            }
            lemma_keeps_order_trans(p0, p1, self@, fixed);
            assert(is_subseq(p1, p0) && pushes_all(p1, kept_entries, self@));
            assert forall|e: Unconfirmed<T>|
                #[trigger] self@.contains(e) <==> p0.contains(e) && !hashes@.contains(e.hash) by {
                if p1.contains(e) {
                    let q = choose|q: int| 0 <= q < p1.len() && p1[q] == e;
                    if hashes@.contains(e.hash) {
                        let k = choose|k: int| 0 <= k < hashes@.len() && hashes@[k] == e.hash;
                        assert(!has_hash(p1, hashes@[k]));
                    }
                }
            }
        }
    }

    /// Removes the entry with hash `hash` together with everything that
    /// depends on it, directly or transitively, and returns how many entries
    /// went.
    pub fn remove_with_depends(&mut self, hash: &TxHash) -> (r: Result<usize, PoolError>)
        requires
            old(self).wf(),
        ensures
            final(self).wf(),
            remove_with_depends_post(old(self)@, *hash, final(self)@, r),
    {
        let ghost p0 = self@;
        let mut deleted: Vec<Unconfirmed<T>> = Vec::new();
        self.take_closure(hash, &mut deleted);
        if deleted.len() == 0 {
            return Err(PoolError::NotFound);
        }
        proof {
            let d = deleted@;
            assert(d.subrange(0, d.len() as int) =~= d);
            assert forall|k: int| 0 <= k < d.len() implies (|x: Unconfirmed<T>| x.hash == *hash)(#[trigger] d[k])
                || linked_back(d, 0, k) by {
            }
            lemma_closure_facts(p0, self@, d, |x: Unconfirmed<T>| x.hash == *hash);
        }
        Ok(deleted.len())
    }

    /// The index of the first entry whose deadline is before `now`.
    fn first_expired(&self, now: u32) -> (r: Option<usize>)
        ensures
            match r {
                Some(i) => i < self@.len() && self@[i as int].deadline < now,
                None => forall|k: int| 0 <= k < self@.len() ==> #[trigger] self@[k].deadline >= now,
            },
    {
        let mut i: usize = 0;
        while i < self.unconfirmed.len()
            invariant
                i <= self@.len(),
                self@ == self.unconfirmed@,
                forall|k: int| 0 <= k < i ==> #[trigger] self@[k].deadline >= now,
            decreases self@.len() - i,
        {
            if self.unconfirmed[i].deadline < now {
                return Some(i);
            }
            i = i + 1;
        }
        None
    }

    /// Removes every entry whose deadline is before `now`, with everything
    /// that depends on it, and returns the handles of all removed entries.
    #[verifier::rlimit(40)]
    pub fn clear_by_deadline(&mut self, now: u32) -> (r: Vec<T>)
        requires
            old(self).wf(),
        ensures
            final(self).wf(),
            is_subseq(final(self)@, old(self)@),
            forall|k: int| 0 <= k < final(self)@.len() ==> #[trigger] final(self)@[k].deadline >= now,
            closed_removal(old(self)@, final(self)@),
            removal_from(old(self)@, final(self)@, |d: Unconfirmed<T>| d.deadline < now),
            exists|gone_entries: Seq<Unconfirmed<T>>|
                #[trigger] objs_of(gone_entries) == r@ && distinct_hashes(gone_entries) && gone_entries.len()
                    == old(self)@.len() - final(self)@.len() && forall|d: Unconfirmed<T>|
                    #[trigger] gone_entries.contains(d) <==> gone(old(self)@, final(self)@, d),
    {
        let ghost p0 = self@;
        let mut deleted: Vec<Unconfirmed<T>> = Vec::new();
        proof {
            lemma_subseq_refl(p0);
        }
        loop
            invariant
                p0 == old(self)@,
                pool_ok(self@),
                distinct_hashes(deleted@),
                self@.len() + deleted@.len() == p0.len(),
                disjoint(self@, deleted@),
                is_subseq(self@, p0),
                forall|e: Unconfirmed<T>| #[trigger] p0.contains(e) <==> self@.contains(e) || deleted@.contains(e),
                forall|i: int, k: int|
                    0 <= i < self@.len() && 0 <= k < deleted@.len() ==> !depends_on(#[trigger] self@[i], #[trigger] deleted@[k].hash),
                forall|k: int| 0 <= k < deleted@.len() ==> (#[trigger] deleted@[k]).deadline < now || linked_back(deleted@, 0, k),
            ensures
                pool_ok(self@),
                distinct_hashes(deleted@),
                self@.len() + deleted@.len() == p0.len(),
                disjoint(self@, deleted@),
                is_subseq(self@, p0),
                forall|e: Unconfirmed<T>| #[trigger] p0.contains(e) <==> self@.contains(e) || deleted@.contains(e),
                forall|i: int, k: int|
                    0 <= i < self@.len() && 0 <= k < deleted@.len() ==> !depends_on(#[trigger] self@[i], #[trigger] deleted@[k].hash),
                forall|k: int| 0 <= k < deleted@.len() ==> (#[trigger] deleted@[k]).deadline < now || linked_back(deleted@, 0, k),
                forall|k: int| 0 <= k < self@.len() ==> #[trigger] self@[k].deadline >= now,
            decreases self@.len(),
        {
            match self.first_expired(now) {
                None => {
                    break;
                },
                Some(j) => {
                    let h = self.unconfirmed[j].hash;
                    let ghost p1 = self@;
                    let ghost d1 = deleted@;
                    proof {
                        assert(has_hash(p1, h));
                    }
                    self.take_closure(&h, &mut deleted);
                    proof {
                        let p2 = self@;
                        let d2 = deleted@;
                        let n2 = d2.subrange(d1.len() as int, d2.len() as int);
                        lemma_subseq_trans(p2, p1, p0);
                        assert(d2 =~= d1 + n2);
                        assert forall|e: Unconfirmed<T>| #[trigger] p0.contains(e) <==> p2.contains(e) || d2.contains(e) by {
                            lemma_concat_contains(d1, n2, e);
                            if p2.contains(e) {
                                lemma_subseq_contains(p2, p1, e);
                            }
                        }
                        let f = choose|f: spec_fn(int) -> int| embeds(p2, p1, f);
                        assert forall|i: int, k: int|
                            0 <= i < p2.len() && 0 <= k < d2.len() implies !depends_on(#[trigger] p2[i], #[trigger] d2[k].hash) by {
                            if k < d1.len() {
                                assert(p2[i] == p1[f(i)]);
                                assert(d2[k] == d1[k]);
                                assert(!depends_on(p1[f(i)], d1[k].hash));
                            }
                        }
                        assert forall|k: int| 0 <= k < d2.len() implies (#[trigger] d2[k]).deadline < now || linked_back(d2, 0, k) by {
                            if k < d1.len() {
                                assert(d2[k] == d1[k]);
                                if d1[k].deadline >= now {
                                    assert(linked_back(d1, 0, k));
                                    let m = choose|m: int| 0 <= m < k && #[trigger] depends_on(d1[k], d1[m].hash);
                                    assert(d2[m] == d1[m]);
                                    assert(depends_on(d2[k], d2[m].hash));
                                }
                            } else if k == d1.len() {
                                assert(n2[0] == d2[k]);
                                assert(n2.contains(d2[k]));
                                assert(p1.contains(d2[k]));
                                assert(p1.contains(p1[j as int]));
                                lemma_same_hash_same_entry(p1, d2[k], p1[j as int]);
                            } else {
                                assert(linked_back(d2, d1.len() as int, k));
                                let m = choose|m: int| d1.len() <= m < k && #[trigger] depends_on(d2[k], d2[m].hash);
                                assert(depends_on(d2[k], d2[m].hash));
                            }
                        }
                    }
                },
            }
        }
        proof {
            lemma_closure_facts(p0, self@, deleted@, |x: Unconfirmed<T>| x.deadline < now);
        }
        let mut r: Vec<T> = Vec::new();
        let mut i: usize = 0;
        while i < deleted.len()
            invariant
                i <= deleted@.len(),
                r@.len() == i,
                forall|k: int| 0 <= k < i ==> r@[k] == (#[trigger] deleted@[k]).obj,
            decreases deleted@.len() - i,
        {
            r.push(deleted[i].obj);
            i = i + 1;
        }
        proof {
            assert(objs_of(deleted@) =~= r@);
        }
        r
    }

    /// The handles of the longest prefix of the pool whose total `size` stays
    /// strictly below `maxsize`, in pool order.
    pub fn list_size_limit(&self, maxsize: u32) -> (r: Vec<T>)
        ensures
            r@.len() <= self@.len(),
            forall|i: int| 0 <= i < r@.len() ==> r@[i] == (#[trigger] self@[i]).obj,
            r@.len() == 0 || size_sum(self@, r@.len() as int) < maxsize,
            r@.len() < self@.len() ==> size_sum(self@, r@.len() + 1int) >= maxsize,
    {
        let mut r: Vec<T> = Vec::new();
        let mut total: u64 = 0;
        let mut i: usize = 0;
        while i < self.unconfirmed.len()
            invariant_except_break
                i <= self@.len(),
                self@ == self.unconfirmed@,
                r@.len() == i,
                forall|k: int| 0 <= k < i ==> r@[k] == (#[trigger] self@[k]).obj,
                total == size_sum(self@, i as int),
                i == 0 || total < maxsize,
            ensures
                r@.len() <= self@.len(),
                forall|k: int| 0 <= k < r@.len() ==> r@[k] == (#[trigger] self@[k]).obj,
                r@.len() == 0 || size_sum(self@, r@.len() as int) < maxsize,
                r@.len() < self@.len() ==> size_sum(self@, r@.len() + 1int) >= maxsize,
            decreases self@.len() - i,
        {
            let next = total + self.unconfirmed[i].size as u64;
            if next >= maxsize as u64 {
                break;
            }
            total = next;
            r.push(self.unconfirmed[i].obj);
            i = i + 1;
        }
        r
    }

    /// The hashes of all entries, in pool order.
    pub fn list_all_hash(&self) -> (r: Vec<TxHash>)
        ensures
            r@ == self@.map_values(|e: Unconfirmed<T>| e.hash),
    {
        let mut r: Vec<TxHash> = Vec::new();
        let mut i: usize = 0;
        while i < self.unconfirmed.len()
            invariant
                i <= self@.len(),
                self@ == self.unconfirmed@,
                r@.len() == i,
                forall|k: int| 0 <= k < i ==> r@[k] == (#[trigger] self@[k]).hash,
            decreases self@.len() - i,
        {
            r.push(self.unconfirmed[i].hash);
            i = i + 1;
        }
        assert(r@ =~= self@.map_values(|e: Unconfirmed<T>| e.hash));
        r
    }

    /// The handles of all entries, in pool order or, when `reversed`, from the
    /// last entry to the first.
    pub fn list_all_obj(&self, reversed: bool) -> (r: Vec<T>)
        ensures
            reversed ==> r@ == self@.map_values(|e: Unconfirmed<T>| e.obj).reverse(),
            !reversed ==> r@ == self@.map_values(|e: Unconfirmed<T>| e.obj),
    {
        let n = self.unconfirmed.len();
        let mut r: Vec<T> = Vec::new();
        let mut i: usize = 0;
        while i < n
            invariant
                i <= n,
                n == self@.len(),
                self@ == self.unconfirmed@,
                r@.len() == i,
                forall|k: int|
                    0 <= k < i ==> #[trigger] r@[k] == if reversed {
                        self@[n - 1 - k].obj
                    } else {
                        self@[k].obj
                    },
            decreases n - i,
        {
            if reversed {
                r.push(self.unconfirmed[n - 1 - i].obj);
            } else {
                r.push(self.unconfirmed[i].obj);
            }
            i = i + 1;
        }
        if reversed {
            assert(r@ =~= self@.map_values(|e: Unconfirmed<T>| e.obj).reverse());
        } else {
            assert(r@ =~= self@.map_values(|e: Unconfirmed<T>| e.obj));
        }
        r
    }

    /// Empties the pool.
    pub fn clear_all(&mut self)
        ensures
            final(self).wf(),
            final(self)@ == Seq::<Unconfirmed<T>>::empty(),
    {
        self.unconfirmed.clear();
        assert(self@ =~= Seq::<Unconfirmed<T>>::empty());
    }

    /// One past the index of the last parent of `x` in the pool (0 if none).
    fn parent_bound(&self, x: &Unconfirmed<T>) -> (r: usize)
        ensures
            r <= self@.len(),
            forall|j: int| r <= j < self@.len() ==> !depends_on(*x, #[trigger] self@[j].hash),
            r > 0 ==> depends_on(*x, self@[r - 1].hash),
    {
        let mut lo: usize = 0;
        let mut i: usize = 0;
        while i < self.unconfirmed.len()
            invariant
                lo <= i <= self@.len(),
                self@ == self.unconfirmed@,
                forall|j: int| lo <= j < i ==> !depends_on(*x, #[trigger] self@[j].hash),
                lo > 0 ==> depends_on(*x, self@[lo - 1].hash),
            decreases self@.len() - i,
        {
            if holds_hash(&x.depends, &self.unconfirmed[i].hash) {
                lo = i + 1;
            }
            i = i + 1;
        }
        lo
    }

    /// The hashes of the children of `x` that stand before index `lo`, from the
    /// highest index down.
    fn disturbers(&self, x: &Unconfirmed<T>, lo: usize) -> (r: Vec<TxHash>)
        requires
            lo <= self@.len(),
        ensures
            forall|i: int| 0 <= i < lo && depends_on(#[trigger] self@[i], x.hash) ==> r@.contains(self@[i].hash),
            forall|k: int| 0 <= k < r@.len() ==> child_below(self@, *x, lo as int, #[trigger] r@[k]),
    {
        let mut r: Vec<TxHash> = Vec::new();
        let mut i: usize = lo;
        while i > 0
            invariant
                i <= lo <= self@.len(),
                self@ == self.unconfirmed@,
                forall|j: int| i <= j < lo && depends_on(#[trigger] self@[j], x.hash) ==> r@.contains(self@[j].hash),
                forall|k: int| 0 <= k < r@.len() ==> child_below(self@, *x, lo as int, #[trigger] r@[k]),
            decreases i,
        {
            i = i - 1;
            if holds_hash(&self.unconfirmed[i].depends, &x.hash) {
                let ghost r0 = r@;
                r.push(self.unconfirmed[i].hash);
                proof {
                    assert(r@[r0.len() as int] == self@[i as int].hash);
                    assert forall|k: int| 0 <= k < r@.len() implies child_below(self@, *x, lo as int, #[trigger] r@[k]) by {
                        if k < r0.len() {
                            assert(r@[k] == r0[k]);
                            assert(child_below(self@, *x, lo as int, r0[k]));
                        } else {
                            assert(r@[k] == self@[i as int].hash);
                            assert(depends_on(self@[i as int], x.hash));
                        }
                    }
                    assert forall|j: int| i <= j < lo && depends_on(#[trigger] self@[j], x.hash) implies r@.contains(self@[j].hash) by {
                        if j == i {
                            assert(r@[r0.len() as int] == self@[j].hash);
                        } else {
                            assert(r0.contains(self@[j].hash));
                            let q = choose|q: int| 0 <= q < r0.len() && r0[q] == self@[j].hash;
                            assert(r@[q] == self@[j].hash);
                        }
                    }
                }
            }
        }
        r
    }

    /// Inserts `x` where the ordering rules place it, when its parents already
    /// stand before its children.
    #[verifier::rlimit(30)]
    fn insert_plain(&mut self, x: Unconfirmed<T>) -> (k: usize)
        requires
            pool_ok(old(self)@),
            !has_hash(old(self)@, x.hash),
            !depends_on(x, x.hash),
            no_disturb(old(self)@, x),
        ensures
            final(self)@ == old(self)@.insert(k as int, x),
            placed(old(self)@, x, k as int),
            pool_ok(final(self)@),
    {
        let ghost s = self@;
        let n = self.unconfirmed.len();
        let lo = self.parent_bound(&x);
        let mut hi: usize = 0;
        let mut searching = true;
        while searching
            invariant
                hi <= n,
                n == s.len(),
                s == self@,
                self@ == self.unconfirmed@,
                forall|j: int| 0 <= j < hi ==> !depends_on(#[trigger] s[j], x.hash),
                !searching ==> (hi == n || depends_on(s[hi as int], x.hash)),
            decreases n - hi + (if searching { 1int } else { 0int }),
        {
            if hi == n || holds_hash(&self.unconfirmed[hi].depends, &x.hash) {
                searching = false;
            } else {
                hi = hi + 1;
            }
        }
        proof {
            if lo > 0 && hi < n {
                assert(depends_on(x, s[lo - 1].hash));
                assert(depends_on(s[hi as int], x.hash));
            }
        }
        let mut k: usize = lo;
        searching = true;
        while searching
            invariant
                lo <= k <= hi,
                lo <= hi <= n,
                n == s.len(),
                s == self@,
                self@ == self.unconfirmed@,
                forall|j: int| lo <= j < k ==> !#[trigger] outranks(x, s[j]),
                !searching ==> (k == hi || outranks(x, s[k as int])),
            decreases hi - k + (if searching { 1int } else { 0int }),
        {
            if k == hi {
                searching = false;
            } else if ranks_ahead(&x, &self.unconfirmed[k]) {
                searching = false;
            } else {
                k = k + 1;
            }
        }
        self.unconfirmed.insert(k, x);
        proof {
            let t = self@;
            assert(t == s.insert(k as int, x));
            assert forall|i: int|
                0 <= i < k && (forall|j: int| i <= j < s.len() ==> !depends_on(x, #[trigger] s[j].hash))
                implies !#[trigger] outranks(x, s[i]) by {
                if i < lo {
                    assert(depends_on(x, s[lo - 1].hash));
                }
            }
            assert forall|i: int, j: int|
                0 <= i < t.len() && 0 <= j < t.len() && i != j implies #[trigger] t[i].hash != #[trigger] t[j].hash by {
                if i == k {
                    let jj = if j < k { j } else { j - 1 };
                    assert(t[j] == s[jj]);
                } else if j == k {
                    let ii = if i < k { i } else { i - 1 };
                    assert(t[i] == s[ii]);
                } else {
                    let ii = if i < k { i } else { i - 1 };
                    let jj = if j < k { j } else { j - 1 };
                    assert(s[ii].hash != s[jj].hash);
                }
            }
            assert forall|i: int, j: int|
                0 <= i < t.len() && 0 <= j < t.len() && #[trigger] t[i].depends@.contains(#[trigger] t[j].hash)
                implies j < i by {
                let ii = if i < k { i } else { i - 1 };
                let jj = if j < k { j } else { j - 1 };
                if i == k {
                    assert(depends_on(x, s[jj].hash));
                } else if j == k {
                    assert(depends_on(s[ii], x.hash));
                } else {
                    assert(s[ii].depends@.contains(s[jj].hash));
                }
            }
        }
        k
    }

    /// Inserts `x`, repairing the order first when children of `x` stand
    /// before one of its parents: those children and everything depending on
    /// them are taken out, `x` goes in, and they are pushed again in the order
    /// they were taken out.
    #[verifier::rlimit(60)]
    fn push_rec(
        &mut self,
        x: Unconfirmed<T>,
        Ghost(rank): Ghost<spec_fn(TxHash) -> nat>,
        Ghost(fixed): Ghost<Set<TxHash>>,
    ) -> (r: Result<usize, PoolError>)
        requires
            pool_ok(old(self)@),
            ranked(old(self)@.push(x), rank),
            !fixed.contains(x.hash),
            fixed_closed(old(self)@, fixed),
            forall|e: Unconfirmed<T>| #[trigger] old(self)@.contains(e) && fixed.contains(e.hash) ==> !depends_on(e, x.hash),
        ensures
            pool_ok(final(self)@),
            push_post(old(self)@, x, final(self)@, r),
            keeps_order(old(self)@, final(self)@, fixed),
        decreases rank(x.hash), 1nat,
    {
        if self.position(&x.hash).is_some() {
            return Err(PoolError::DuplicateHash);
        }
        let ghost p0 = self@;
        proof {
            assert(p0.push(x)[p0.len() as int] == x);
            assert(p0.push(x).contains(x));
            assert(ranked_entry(x, rank));
            assert forall|e: Unconfirmed<T>| #[trigger] p0.contains(e) implies p0.push(x).contains(e) && ranked_entry(e, rank) by {
                let i = choose|i: int| 0 <= i < p0.len() && p0[i] == e;
                assert(p0.push(x)[i] == e);
            }
        }
        let lo = self.parent_bound(&x);
        let disturbs = self.disturbers(&x, lo);
        if disturbs.len() == 0 {
            proof {
                assert forall|i: int, j: int|
                    0 <= i < p0.len() && 0 <= j < p0.len() && #[trigger] depends_on(x, p0[i].hash)
                        && #[trigger] depends_on(p0[j], x.hash) implies i < j by {
                    if j < lo {
                        assert(disturbs@.contains(p0[j].hash));
                    }
                }
            }
            let k = self.insert_plain(x);
            proof {
                lemma_insert_keeps_order(p0, k as int, x, fixed);
                assert(self@[k as int] == x);
                assert forall|e: Unconfirmed<T>| #[trigger] self@.contains(e) <==> p0.contains(e) || e == x by {
                    if self@.contains(e) {
                        let i = choose|i: int| 0 <= i < self@.len() && self@[i] == e;
                        if i < k {
                            assert(p0[i] == e);
                        } else if i > k {
                            assert(p0[i - 1] == e);
                        }
                    }
                    if p0.contains(e) {
                        let i = choose|i: int| 0 <= i < p0.len() && p0[i] == e;
                        if i < k {
                            assert(self@[i] == e);
                        } else {
                            assert(self@[i + 1] == e);
                        }
                    }
                }
            }
            return Ok(k);
        }
        proof {
            assert(disturbs@.len() > 0);
            assert(child_below(p0, x, lo as int, disturbs@[0]));
            let j = choose|j: int| 0 <= j < lo && depends_on(p0[j], x.hash) && #[trigger] p0[j].hash == disturbs@[0];
            assert(depends_on(x, p0[lo - 1].hash));
            assert(!no_disturb(p0, x));
        }
        let xh = x.hash;
        let mut deleted: Vec<Unconfirmed<T>> = Vec::new();
        let mut t: usize = 0;
        proof {
            lemma_subseq_refl(p0);
        }
        while t < disturbs.len()
            invariant
                t <= disturbs@.len(),
                p0 == old(self)@,
                pool_ok(p0),
                lo <= p0.len(),
                !has_hash(p0, x.hash),
                ranked(p0.push(x), rank),
                forall|e: Unconfirmed<T>| #[trigger] p0.contains(e) ==> ranked_entry(e, rank),
                forall|k: int| 0 <= k < disturbs@.len() ==> child_below(p0, x, lo as int, #[trigger] disturbs@[k]),
                forall|i: int| 0 <= i < lo && depends_on(#[trigger] p0[i], x.hash) ==> disturbs@.contains(p0[i].hash),
                pool_ok(self@),
                distinct_hashes(deleted@),
                disjoint(self@, deleted@),
                is_subseq(self@, p0),
                forall|e: Unconfirmed<T>| #[trigger] p0.contains(e) <==> self@.contains(e) || deleted@.contains(e),
                forall|k: int| 0 <= k < t ==> !has_hash(self@, #[trigger] disturbs@[k]),
                forall|k: int| 0 <= k < deleted@.len() ==> rank(#[trigger] deleted@[k].hash) < rank(x.hash),
                forall|k: int| 0 <= k < deleted@.len() ==> !fixed.contains(#[trigger] deleted@[k].hash),
                fixed_closed(p0, fixed),
                forall|e: Unconfirmed<T>| #[trigger] p0.contains(e) && fixed.contains(e.hash) ==> !depends_on(e, x.hash),
            decreases disturbs@.len() - t,
        {
            let ghost p1 = self@;
            let ghost d1 = deleted@;
            self.take_closure(&disturbs[t], &mut deleted);
            proof {
                let p2 = self@;
                let d2 = deleted@;
                let n2 = d2.subrange(d1.len() as int, d2.len() as int);
                lemma_subseq_trans(p2, p1, p0);
                assert(d2 =~= d1 + n2);
                assert forall|e: Unconfirmed<T>| #[trigger] p0.contains(e) <==> p2.contains(e) || d2.contains(e) by {
                    if d2.contains(e) {
                        let q = choose|q: int| 0 <= q < d2.len() && d2[q] == e;
                        if q < d1.len() {
                            assert(d1[q] == e);
                        } else {
                            assert(n2[q - d1.len()] == e);
                            assert(p1.contains(e));
                        }
                    }
                    if p2.contains(e) {
                        lemma_subseq_contains(p2, p1, e);
                    }
                    if d1.contains(e) {
                        let q = choose|q: int| 0 <= q < d1.len() && d1[q] == e;
                        assert(d2[q] == e);
                    }
                    if p1.contains(e) && !p2.contains(e) {
                        let q = choose|q: int| 0 <= q < n2.len() && n2[q] == e;
                        assert(d2[d1.len() + q] == e);
                    }
                }
                assert forall|k: int| 0 <= k < t + 1 implies !has_hash(p2, #[trigger] disturbs@[k]) by {
                    if k < t {
                        if has_hash(p2, disturbs@[k]) {
                            let i = choose|i: int| 0 <= i < p2.len() && #[trigger] p2[i].hash == disturbs@[k];
                            assert(p2.contains(p2[i]));
                            lemma_subseq_contains(p2, p1, p2[i]);
                            let i1 = choose|i1: int| 0 <= i1 < p1.len() && p1[i1] == p2[i];
                            assert(p1[i1].hash == disturbs@[k]);
                        }
                    }
                }
                if n2.len() > 0 {
                    let h = disturbs@[t as int];
                    assert(n2[0] == d2[d1.len() as int]);
                    assert(n2[0].hash == h);
                    assert(child_below(p0, x, lo as int, h));
                    let j = choose|j: int| 0 <= j < lo && depends_on(p0[j], x.hash) && #[trigger] p0[j].hash == h;
                    assert(n2.contains(n2[0]));
                    assert(p1.contains(n2[0]));
                    lemma_subseq_contains(p1, p0, n2[0]);
                    assert(p0.contains(p0[j]));
                    lemma_same_hash_same_entry(p0, n2[0], p0[j]);
                    assert(ranked_entry(n2[0], rank));
                    assert(n2[0].depends@.contains(x.hash));
                    assert forall|q: int| d1.len() <= q < d2.len() implies ranked_entry(#[trigger] d2[q], rank) by {
                        assert(n2[q - d1.len()] == d2[q]);
                        assert(n2.contains(d2[q]));
                        assert(p1.contains(d2[q]));
                        lemma_subseq_contains(p1, p0, d2[q]);
                    }
                    assert forall|k: int| 0 <= k < d2.len() implies rank(#[trigger] d2[k].hash) < rank(x.hash) by {
                        if k < d1.len() {
                            assert(d2[k] == d1[k]);
                        } else {
                            lemma_linked_rank(d2, d1.len() as int, rank, rank(x.hash), k);
                        }
                    }
                    assert(!fixed.contains(n2[0].hash));
                    assert forall|q: int| d1.len() <= q < d2.len() implies p0.contains(#[trigger] d2[q]) by {
                        assert(n2[q - d1.len()] == d2[q]);
                        assert(n2.contains(d2[q]));
                        assert(p1.contains(d2[q]));
                        lemma_subseq_contains(p1, p0, d2[q]);
                    }
                    assert forall|k: int| 0 <= k < d2.len() implies !fixed.contains(#[trigger] d2[k].hash) by {
                        if k < d1.len() {
                            assert(d2[k] == d1[k]);
                        } else {
                            lemma_linked_unfixed(d2, d1.len() as int, p0, fixed, k);
                        }
                    }
                } else {
                    assert(d2 =~= d1);
                }
            }
            t = t + 1;
        }
        let ghost p1 = self@;
        proof {
            let f = choose|f: spec_fn(int) -> int| embeds(p1, p0, f);
            assert forall|i: int, j: int|
                0 <= i < p1.len() && 0 <= j < p1.len() && #[trigger] depends_on(x, p1[i].hash)
                    && #[trigger] depends_on(p1[j], x.hash) implies i < j by {
                assert(p1[i] == p0[f(i)]);
                assert(p1[j] == p0[f(j)]);
                assert(f(i) < lo);
                if f(j) < lo {
                    assert(disturbs@.contains(p0[f(j)].hash));
                    let q = choose|q: int| 0 <= q < disturbs@.len() && disturbs@[q] == p0[f(j)].hash;
                    assert(!has_hash(p1, disturbs@[q]));
                    assert(p1[j].hash == disturbs@[q]);
                }
                if j <= i {
                    if j < i {
                        assert(f(j) < f(i));
                    }
                }
            }
            if has_hash(p1, x.hash) {
                let i = choose|i: int| 0 <= i < p1.len() && #[trigger] p1[i].hash == x.hash;
                assert(p0[f(i)].hash == x.hash);
            }
        }
        let k = self.insert_plain(x);
        let ghost p2 = self@;
        proof {
            assert forall|e: Unconfirmed<T>| #[trigger] p2.contains(e) <==> p1.contains(e) || e == x by {
                if p2.contains(e) {
                    let i = choose|i: int| 0 <= i < p2.len() && p2[i] == e;
                    if i < k {
                        assert(p1[i] == e);
                    } else if i > k {
                        assert(p1[i - 1] == e);
                    }
                }
                if p1.contains(e) {
                    let i = choose|i: int| 0 <= i < p1.len() && p1[i] == e;
                    if i < k {
                        assert(p2[i] == e);
                    } else {
                        assert(p2[i + 1] == e);
                    }
                }
                if e == x {
                    assert(p2[k as int] == x);
                }
            }
            assert forall|i: int, j: int|
                0 <= i < p2.len() && 0 <= j < deleted@.len() implies #[trigger] p2[i].hash != #[trigger] deleted@[j].hash by {
                assert(p2.contains(p2[i]));
                if p2[i] == x {
                    assert(deleted@.contains(deleted@[j]));
                    assert(p0.contains(deleted@[j]));
                } else {
                    let i1 = choose|i1: int| 0 <= i1 < p1.len() && p1[i1] == p2[i];
                    assert(p1[i1].hash != deleted@[j].hash);
                }
            }
            assert(p0.push(x)[p0.len() as int] == x);
            assert(ranked_entry(x, rank));
            assert forall|e: Unconfirmed<T>| #[trigger] (p2 + deleted@).contains(e) implies ranked_entry(e, rank) by {
                lemma_concat_contains(p2, deleted@, e);
                if p2.contains(e) && e != x {
                    lemma_subseq_contains(p1, p0, e);
                }
            }
        }
        proof {
            lemma_subseq_keeps_order(p1, p0, fixed);
            lemma_insert_keeps_order(p1, k as int, x, fixed);
            lemma_keeps_order_trans(p0, p1, p2, fixed);
            assert forall|e: Unconfirmed<T>, f: Unconfirmed<T>|
                #[trigger] p2.contains(e) && #[trigger] p2.contains(f) && fixed.contains(e.hash) && #[trigger] depends_on(
                    e,
                    f.hash,
                ) implies fixed.contains(f.hash) by {
                lemma_subseq_contains(p1, p0, e);
                if f != x {
                    lemma_subseq_contains(p1, p0, f);
                }
            }
            assert forall|e: Unconfirmed<T>, b: Unconfirmed<T>|
                #[trigger] p2.contains(e) && #[trigger] deleted@.contains(b) && fixed.contains(e.hash) implies !depends_on(
                e,
                b.hash,
            ) by {
                lemma_subseq_contains(p1, p0, e);
                let q = choose|q: int| 0 <= q < deleted@.len() && deleted@[q] == b;
                assert(!fixed.contains(deleted@[q].hash));
                assert(p0.contains(b));
                if depends_on(e, b.hash) {
                    assert(p0.contains(e) && p0.contains(b) && fixed.contains(e.hash));
                    assert(fixed.contains(b.hash));
                }
            }
            assert forall|b: Unconfirmed<T>| #[trigger] deleted@.contains(b) implies !fixed.contains(b.hash) by {
                let q = choose|q: int| 0 <= q < deleted@.len() && deleted@[q] == b;
            }
        }
        self.push_all(deleted, Ghost(rank), Ghost(rank(xh)), Ghost(fixed));
        proof {
            lemma_keeps_order_trans(p0, p2, self@, fixed);
            let p3 = self@;
            assert(p3.contains(x));
            assert forall|e: Unconfirmed<T>| #[trigger] p3.contains(e) <==> p0.contains(e) || e == x by {
            }
            lemma_one_more(p0, x, p3);
        }
        match self.position(&xh) {
            Some(i) => {
                proof {
                    assert(self@.contains(self@[i as int]));
                    lemma_same_hash_same_entry(self@, self@[i as int], x);
                }
                Ok(i)
            },
            None => {
                proof {
                    let i = choose|i: int| 0 <= i < self@.len() && self@[i] == x;
                    assert(self@[i].hash == xh);
                }
                Ok(0)
            },
        }
    }

    /// Pushes each entry of `buffer` in turn.
    #[verifier::rlimit(40)]
    fn push_all(
        &mut self,
        buffer: Vec<Unconfirmed<T>>,
        Ghost(rank): Ghost<spec_fn(TxHash) -> nat>,
        Ghost(bound): Ghost<nat>,
        Ghost(fixed): Ghost<Set<TxHash>>,
    )
        requires
            pool_ok(old(self)@),
            distinct_hashes(buffer@),
            disjoint(old(self)@, buffer@),
            ranked(old(self)@ + buffer@, rank),
            forall|k: int| 0 <= k < buffer@.len() ==> rank(#[trigger] buffer@[k].hash) < bound,
            fixed_closed(old(self)@, fixed),
            forall|b: Unconfirmed<T>| #[trigger] buffer@.contains(b) ==> !fixed.contains(b.hash),
            forall|e: Unconfirmed<T>, b: Unconfirmed<T>|
                #[trigger] old(self)@.contains(e) && #[trigger] buffer@.contains(b) && fixed.contains(e.hash)
                    ==> !depends_on(e, b.hash),
        ensures
            keeps_order(old(self)@, final(self)@, fixed),
            pool_ok(final(self)@),
            forall|e: Unconfirmed<T>| #[trigger] final(self)@.contains(e) <==> old(self)@.contains(e) || buffer@.contains(e),
            buffer@.len() == 0 ==> final(self)@ == old(self)@,
            pushes_all(old(self)@, buffer@, final(self)@),
        decreases bound, 0nat,
    {
        let ghost p0 = self@;
        let ghost b0 = buffer@;
        let mut buffer = buffer;
        proof {
            assert forall|e: Unconfirmed<T>| #[trigger] (p0 + b0).contains(e) <==> self@.contains(e) || buffer@.contains(e) by {
                lemma_concat_contains(p0, b0, e);
            }
            assert(b0.take(0) =~= Seq::<Unconfirmed<T>>::empty());
            assert(b0.subrange(0, b0.len() as int) =~= b0);
        }
        while buffer.len() > 0
            invariant
                pool_ok(self@),
                distinct_hashes(buffer@),
                disjoint(self@, buffer@),
                ranked(self@ + buffer@, rank),
                forall|k: int| 0 <= k < buffer@.len() ==> rank(#[trigger] buffer@[k].hash) < bound,
                forall|e: Unconfirmed<T>| #[trigger] (p0 + b0).contains(e) <==> self@.contains(e) || buffer@.contains(e),
                b0.len() == 0 ==> self@ == p0,
                buffer@.len() <= b0.len(),
                buffer@ == b0.subrange(b0.len() - buffer@.len(), b0.len() as int),
                pushes_all(p0, b0.take(b0.len() - buffer@.len()), self@),
                keeps_order(p0, self@, fixed),
                fixed_closed(self@, fixed),
                forall|b: Unconfirmed<T>| #[trigger] buffer@.contains(b) ==> !fixed.contains(b.hash),
                forall|e: Unconfirmed<T>, b: Unconfirmed<T>|
                    #[trigger] self@.contains(e) && #[trigger] buffer@.contains(b) && fixed.contains(e.hash)
                        ==> !depends_on(e, b.hash),
            decreases buffer@.len(),
        {
            let ghost s1 = self@;
            let ghost b1 = buffer@;
            let d = buffer.remove(0);
            proof {
                assert(b1[0] == d);
                assert(rank(d.hash) < bound);
                assert(buffer@ == b1.subrange(1, b1.len() as int));
                if has_hash(s1, d.hash) {
                    let i = choose|i: int| 0 <= i < s1.len() && #[trigger] s1[i].hash == d.hash;
                    assert(s1[i].hash != b1[0].hash);
                }
                assert forall|e: Unconfirmed<T>| #[trigger] s1.push(d).contains(e) implies (s1 + b1).contains(e) by {
                    let q = choose|q: int| 0 <= q < s1.push(d).len() && s1.push(d)[q] == e;
                    if q < s1.len() {
                        assert((s1 + b1)[q] == e);
                    } else {
                        assert((s1 + b1)[s1.len() as int] == e);
                    }
                }
                lemma_ranked_subset(s1.push(d), s1 + b1, rank);
            }
            proof {
                assert(b1.contains(d));
                assert forall|e: Unconfirmed<T>| #[trigger] s1.contains(e) && fixed.contains(e.hash) implies !depends_on(
                    e,
                    d.hash,
                ) by {
                    assert(b1.contains(d));
                }
                assert forall|b: Unconfirmed<T>| #[trigger] buffer@.contains(b) implies b1.contains(b) by {
                    let q = choose|q: int| 0 <= q < buffer@.len() && buffer@[q] == b;
                    assert(b1[q + 1] == b);
                }
            }
            let pushed = self.push_rec(d, Ghost(rank), Ghost(fixed));
            proof {
                let s2 = self@;
                let b2 = buffer@;
                let c = b0.len() - b1.len();
                assert(b1[0] == b0[c]);
                assert(b2 =~= b0.subrange(b0.len() - b2.len(), b0.len() as int));
                assert(b0.take(c + 1).drop_last() =~= b0.take(c));
                assert(b0.take(c + 1).last() == d);
                let k = pushed.unwrap();
                assert(push_post(s1, b0.take(c + 1).last(), s2, Ok(k)));
                assert(pushes_all(p0, b0.take(c + 1), s2));
                lemma_keeps_order_trans(p0, s1, s2, fixed);
                assert forall|e: Unconfirmed<T>, f: Unconfirmed<T>|
                    #[trigger] s2.contains(e) && #[trigger] s2.contains(f) && fixed.contains(e.hash) && #[trigger] depends_on(
                        e,
                        f.hash,
                    ) implies fixed.contains(f.hash) by {
                    assert(s1.contains(e));
                    if f == d {
                        assert(b1.contains(d));
                    } else {
                        assert(s1.contains(f));
                    }
                }
                assert forall|e: Unconfirmed<T>, b: Unconfirmed<T>|
                    #[trigger] s2.contains(e) && #[trigger] b2.contains(b) && fixed.contains(e.hash) implies !depends_on(
                    e,
                    b.hash,
                ) by {
                    assert(s1.contains(e));
                    let q = choose|q: int| 0 <= q < b2.len() && b2[q] == b;
                    assert(b1[q + 1] == b);
                    assert(b1.contains(b));
                }
                assert forall|i: int, j: int|
                    0 <= i < s2.len() && 0 <= j < b2.len() implies #[trigger] s2[i].hash != #[trigger] b2[j].hash by {
                    assert(s2.contains(s2[i]));
                    assert(b2[j] == b1[j + 1]);
                    if s2[i] == d {
                        assert(b1[0].hash != b1[j + 1].hash);
                    } else {
                        let i1 = choose|i1: int| 0 <= i1 < s1.len() && s1[i1] == s2[i];
                        assert(s1[i1].hash != b1[j + 1].hash);
                    }
                }
                assert forall|e: Unconfirmed<T>| #[trigger] (s2 + b2).contains(e) implies (s1 + b1).contains(e) by {
                    let q = choose|q: int| 0 <= q < (s2 + b2).len() && (s2 + b2)[q] == e;
                    if q < s2.len() {
                        assert(s2.contains(e));
                        if e == d {
                            assert((s1 + b1)[s1.len() as int] == e);
                        } else {
                            let i1 = choose|i1: int| 0 <= i1 < s1.len() && s1[i1] == e;
                            assert((s1 + b1)[i1] == e);
                        }
                    } else {
                        assert(b2[q - s2.len()] == e);
                        assert((s1 + b1)[s1.len() + q - s2.len() + 1] == e);
                    }
                }
                lemma_ranked_subset(s2 + b2, s1 + b1, rank);
                assert forall|e: Unconfirmed<T>| #[trigger] (p0 + b0).contains(e) <==> s2.contains(e) || b2.contains(e) by {
                    lemma_concat_contains(s1, b1, e);
                    if b1.contains(e) {
                        let q = choose|q: int| 0 <= q < b1.len() && b1[q] == e;
                        if q > 0 {
                            assert(b2[q - 1] == e);
                        }
                    }
                    if b2.contains(e) {
                        let q = choose|q: int| 0 <= q < b2.len() && b2[q] == e;
                        assert(b1[q + 1] == e);
                    }
                }
            }
        }
        proof {
            assert forall|e: Unconfirmed<T>| #[trigger] self@.contains(e) <==> p0.contains(e) || b0.contains(e) by {
                lemma_concat_contains(p0, b0, e);
            }
            assert(b0.take(b0.len() as int) =~= b0);
        }
    }

    /// Moves the entry with hash `hash` and everything that depends on it,
    /// directly or through other moved entries, from the pool to the end of
    /// `deleted`: the entry first, then depth first in pool order.
    #[verifier::rlimit(50)]
    fn take_closure(&mut self, hash: &TxHash, deleted: &mut Vec<Unconfirmed<T>>)
        requires
            pool_ok(old(self)@),
            distinct_hashes(old(deleted)@),
            disjoint(old(self)@, old(deleted)@),
        ensures
            pool_ok(final(self)@),
            distinct_hashes(final(deleted)@),
            disjoint(final(self)@, final(deleted)@),
            final(deleted)@.len() >= old(deleted)@.len(),
            final(deleted)@.subrange(0, old(deleted)@.len() as int) == old(deleted)@,
            final(self)@.len() + final(deleted)@.len() == old(self)@.len() + old(deleted)@.len(),
            is_subseq(final(self)@, old(self)@),
            forall|e: Unconfirmed<T>|
                #[trigger] old(self)@.contains(e) <==> final(self)@.contains(e)
                    || final(deleted)@.subrange(old(deleted)@.len() as int, final(deleted)@.len() as int).contains(e),
            !has_hash(final(self)@, *hash),
            has_hash(old(self)@, *hash) ==> final(deleted)@.len() > old(deleted)@.len()
                && final(deleted)@[old(deleted)@.len() as int].hash == *hash,
            !has_hash(old(self)@, *hash) ==> final(self)@ == old(self)@ && final(deleted)@ == old(deleted)@,
            forall|i: int, k: int|
                0 <= i < final(self)@.len() && old(deleted)@.len() <= k < final(deleted)@.len()
                    ==> !depends_on(#[trigger] final(self)@[i], #[trigger] final(deleted)@[k].hash),
            forall|k: int|
                old(deleted)@.len() < k < final(deleted)@.len() ==> #[trigger] linked_back(
                    final(deleted)@,
                    old(deleted)@.len() as int,
                    k,
                ),
            forall|j: int|
                0 <= j < old(self)@.len() && old(self)@[j].hash == *hash && (forall|i: int|
                    0 <= i < old(self)@.len() ==> !depends_on(#[trigger] old(self)@[i], *hash))
                    ==> final(self)@ == old(self)@.remove(j),
        decreases old(self)@.len(),
    {
        let idx = match self.position(hash) {
            Some(i) => i,
            None => {
                proof {
                    lemma_subseq_refl(self@);
                    assert(deleted@.subrange(0, deleted@.len() as int) =~= deleted@);
                    assert(deleted@.subrange(deleted@.len() as int, deleted@.len() as int) =~= Seq::<Unconfirmed<T>>::empty());
                }
                return ;
            },
        };
        let ghost p0 = self@;
        let ghost d0 = deleted@;
        let ghost start = d0.len() as int;
        let root = self.unconfirmed.remove(idx);
        deleted.push(root);
        proof {
            lemma_subseq_remove(p0, idx as int);
            assert(self@ == p0.remove(idx as int));
            assert forall|i: int, j: int|
                0 <= i < self@.len() && 0 <= j < self@.len() && #[trigger] self@[i].depends@.contains(
                    #[trigger] self@[j].hash,
                ) implies j < i by {
                let fi = if i < idx { i } else { i + 1 };
                let fj = if j < idx { j } else { j + 1 };
                assert(p0[fi].depends@.contains(p0[fj].hash));
            }
            assert forall|i: int, j: int|
                0 <= i < self@.len() && 0 <= j < deleted@.len() implies #[trigger] self@[i].hash
                    != #[trigger] deleted@[j].hash by {
                let fi = if i < idx { i } else { i + 1 };
                if j < start {
                    assert(p0[fi].hash != d0[j].hash);
                } else {
                    assert(fi != idx);
                }
            }
            assert forall|i: int, j: int|
                0 <= i < deleted@.len() && 0 <= j < deleted@.len() && i != j implies #[trigger] deleted@[i].hash
                    != #[trigger] deleted@[j].hash by {
                if i == start {
                    assert(p0[idx as int].hash != d0[j].hash);
                } else if j == start {
                    assert(p0[idx as int].hash != d0[i].hash);
                }
            }
            assert(deleted@.subrange(start, deleted@.len() as int) =~= seq![root]);
            assert(deleted@.subrange(0, start) =~= d0);
            assert forall|e: Unconfirmed<T>| #[trigger] p0.contains(e) implies self@.contains(e)
                || deleted@.subrange(start, deleted@.len() as int).contains(e) by {
                let i = choose|i: int| 0 <= i < p0.len() && p0[i] == e;
                if i < idx {
                    assert(self@[i] == e);
                } else if i > idx {
                    assert(self@[i - 1] == e);
                } else {
                    assert(deleted@.subrange(start, deleted@.len() as int)[0] == e);
                }
            }
            assert forall|e: Unconfirmed<T>|
                self@.contains(e) || deleted@.subrange(start, deleted@.len() as int).contains(e)
                implies #[trigger] p0.contains(e) by {
                if self@.contains(e) {
                    lemma_subseq_contains(self@, p0, e);
                } else {
                    assert(p0[idx as int] == e);
                }
            }
            assert forall|i: int| 0 <= i < self@.len() implies #[trigger] self@[i].hash != *hash by {
                let fi = if i < idx { i } else { i + 1 };
                assert(p0[fi].hash != p0[idx as int].hash);
            }
        }
        loop
            invariant
                pool_ok(self@),
                distinct_hashes(deleted@),
                disjoint(self@, deleted@),
                start == d0.len(),
                deleted@.len() > start,
                deleted@.subrange(0, start) == d0,
                deleted@[start].hash == *hash,
                self@.len() + deleted@.len() == p0.len() + d0.len(),
                self@.len() < p0.len(),
                is_subseq(self@, p0),
                forall|e: Unconfirmed<T>|
                    #[trigger] p0.contains(e) <==> self@.contains(e)
                        || deleted@.subrange(start, deleted@.len() as int).contains(e),
                forall|i: int| 0 <= i < self@.len() ==> #[trigger] self@[i].hash != *hash,
                forall|i: int, k: int|
                    0 <= i < self@.len() && start < k < deleted@.len()
                        ==> !depends_on(#[trigger] self@[i], #[trigger] deleted@[k].hash),
                forall|k: int| start < k < deleted@.len() ==> #[trigger] linked_back(deleted@, start, k),
                (forall|i: int| 0 <= i < p0.len() ==> !depends_on(#[trigger] p0[i], *hash))
                    ==> self@ == p0.remove(idx as int) && deleted@.len() == start + 1,
                p0 == old(self)@,
                d0 == old(deleted)@,
                idx < p0.len(),
            ensures
                forall|i: int| 0 <= i < self@.len() ==> !depends_on(#[trigger] self@[i], *hash),
            decreases self@.len(),
        {
            let found = self.first_dependent(hash);
            match found {
                None => {
                    break;
                },
                Some(j) => {
                    let h = self.unconfirmed[j].hash;
                    let ghost p1 = self@;
                    let ghost d1 = deleted@;
                    proof {
                        assert(has_hash(p1, h));
                        lemma_subseq_contains(p1, p0, p1[j as int]);
                        let jj = choose|jj: int| 0 <= jj < p0.len() && p0[jj] == p1[j as int];
                        assert(depends_on(p0[jj], *hash));
                    }
                    self.take_closure(&h, deleted);
                    proof {
                        let d2 = deleted@;
                        let p2 = self@;
                        lemma_subseq_trans(p2, p1, p0);
                        assert(d2.subrange(0, start) =~= d1.subrange(0, d1.len() as int).subrange(0, start));
                        assert(d2.subrange(0, d1.len() as int) == d1);
                        assert(d2[start] == d1[start]);
                        let a1 = d1.subrange(start, d1.len() as int);
                        let n2 = d2.subrange(d1.len() as int, d2.len() as int);
                        assert(d2.subrange(start, d2.len() as int) =~= a1 + n2);
                        assert forall|e: Unconfirmed<T>|
                            #[trigger] p0.contains(e) <==> p2.contains(e)
                                || d2.subrange(start, d2.len() as int).contains(e) by {
                            if p0.contains(e) {
                                if p1.contains(e) {
                                    assert(p1.contains(e) <==> p2.contains(e) || n2.contains(e));
                                    if n2.contains(e) {
                                        let q = choose|q: int| 0 <= q < n2.len() && n2[q] == e;
                                        assert((a1 + n2)[a1.len() + q] == e);
                                    }
                                } else {
                                    let q = choose|q: int| 0 <= q < a1.len() && a1[q] == e;
                                    assert((a1 + n2)[q] == e);
                                }
                            }
                            if d2.subrange(start, d2.len() as int).contains(e) {
                                let q = choose|q: int| 0 <= q < (a1 + n2).len() && (a1 + n2)[q] == e;
                                if q < a1.len() {
                                    assert(a1.contains(e));
                                } else {
                                    assert(n2[q - a1.len()] == e);
                                    assert(p1.contains(e));
                                    lemma_subseq_contains(p1, p0, e);
                                }
                            }
                            if p2.contains(e) {
                                lemma_subseq_contains(p2, p0, e);
                            }
                        }
                        assert forall|i: int| 0 <= i < p2.len() implies #[trigger] p2[i].hash != *hash by {
                            let f = choose|f: spec_fn(int) -> int| embeds(p2, p1, f);
                            assert(p1[f(i)].hash != *hash);
                        }
                        assert forall|i: int, k: int|
                            0 <= i < p2.len() && start < k < d2.len()
                            implies !depends_on(#[trigger] p2[i], #[trigger] d2[k].hash) by {
                            if k < d1.len() {
                                let f = choose|f: spec_fn(int) -> int| embeds(p2, p1, f);
                                assert(p2[i] == p1[f(i)]);
                                assert(d2[k] == d1[k]);
                            }
                        }
                        assert forall|k: int| start < k < d2.len() implies #[trigger] linked_back(d2, start, k) by {
                            if k < d1.len() {
                                assert(d2[k] == d1[k]);
                                assert(linked_back(d1, start, k));
                                let m = choose|m: int| start <= m < k && #[trigger] depends_on(d1[k], d1[m].hash);
                                assert(d2[m] == d1[m]);
                                assert(depends_on(d2[k], d2[m].hash));
                            } else if k == d1.len() {
                                assert(d2[k].hash == h);
                                let pe = p1[j as int];
                                assert(n2[0] == d2[k]);
                                assert(n2.contains(d2[k]));
                                assert(p1.contains(d2[k]));
                                assert(p1.contains(pe));
                                lemma_same_hash_same_entry(p1, d2[k], pe);
                                assert(depends_on(d2[k], d2[start].hash));
                            } else {
                                assert(linked_back(d2, d1.len() as int, k));
                                let m = choose|m: int| d1.len() <= m < k && #[trigger] depends_on(d2[k], d2[m].hash);
                                assert(depends_on(d2[k], d2[m].hash));
                            }
                        }
                        if forall|i: int| 0 <= i < p0.len() ==> !depends_on(#[trigger] p0[i], *hash) {
                            assert(false);
                        }
                    }
                },
            }
        }
        proof {
            let d2 = deleted@;
            let p2 = self@;
            assert(d2.subrange(0, d0.len() as int) == d0);
            assert forall|i: int, k: int|
                0 <= i < p2.len() && start <= k < d2.len()
                implies !depends_on(#[trigger] p2[i], #[trigger] d2[k].hash) by {
                if k == start {
                    assert(!depends_on(p2[i], *hash));
                }
            }

            assert forall|j: int|
                0 <= j < p0.len() && p0[j].hash == *hash && (forall|i: int|
                    0 <= i < p0.len() ==> !depends_on(#[trigger] p0[i], *hash))
                implies p2 == p0.remove(j) by {
                assert(p0[j].hash == p0[idx as int].hash);
            }
        }
    }
}

} // verus!
