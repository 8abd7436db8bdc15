//! Proof-of-Capacity work: which scope of a plot a block uses, the work hash
//! of a candidate, and the scan of one plot region for a nonce whose work is
//! below the target.
use crate::utils::{be_int, le_bytes_u32, le_int, lemma_be_int_reverse, u32_to_bytes, work_check};
use std::sync::atomic::{AtomicBool, Ordering};
use std::time::Instant;
use vstd::prelude::*;

verus! {

/// Bytes of plot material per nonce (`HASH_LOOP_COUNT * HASH_LENGTH`).
pub const PLOT_BYTES_PER_NONCE: u32 = 524288;

/// Number of 32-byte scopes per nonce.
pub const SCOPE_COUNT: u32 = 16384;

/// Bytes in one scope hash.
pub const SCOPE_HASH_LEN: usize = 32;

/// Time budget of a seek, in milliseconds.
pub const SEEK_TIMEOUT_MS: u128 = 1500;

/// The clock is read at every nonce that is a multiple of this.
pub const TIMEOUT_CHECK_INTERVAL: u32 = 2000;

/// The cancellation signal is read at every nonce that is a multiple of this.
pub const CANCEL_CHECK_INTERVAL: u32 = 2001;

#[verifier::external_type_specification]
#[verifier::external_body]
pub struct ExInstant(std::time::Instant);

/// Relies on `Instant::elapsed`: the time since the instant, which depends on
/// the clock, so nothing is promised of it.
pub assume_specification[ std::time::Instant::elapsed ](i: &std::time::Instant) -> std::time::Duration;

/// Relies on `Duration::as_millis`: the whole milliseconds of a duration.
pub assume_specification[ core::time::Duration::as_millis ](d: &core::time::Duration) -> u128;

/// The BLAKE2b digest (default parameters, 64 bytes) of `msg`.
pub uninterp spec fn blake2b_of(msg: Seq<u8>) -> Seq<u8>;

/// Relies on `blake2b_simd::blake2b`: the default BLAKE2b hash of the input,
/// whose `as_bytes` holds the 64-byte digest.
#[verifier::external_body]
fn blake2b_digest(msg: &[u8]) -> (r: Vec<u8>)
    ensures
        r@ == blake2b_of(msg@),
        r@.len() == 64,
{
    blake2b_simd::blake2b(msg).as_bytes().to_vec()
}

/// Relies on `bigint::U256`: `From<&[u8]>` reads at most 32 big-endian bytes,
/// `%` is the remainder, and `as_u32` returns a value below `2^32` unchanged.
#[verifier::external_body]
fn u256_be_mod(bytes: &[u8], m: u32) -> (r: u32)
    requires
        bytes@.len() <= 32,
        m > 0,
    ensures
        r as nat == be_int(bytes@) % (m as nat),
{
    let v = bigint::U256::from(bytes);
    let d = bigint::U256::from(m);
    (v % d).as_u32()
}

/// The message whose digest is the work of a candidate: the time as four
/// little-endian bytes, then the scope hash, then the previous block hash.
pub open spec fn work_message(time: u32, scope_hash: Seq<u8>, previous_hash: Seq<u8>) -> Seq<u8> {
    le_bytes_u32(time) + scope_hash + previous_hash
}

/// The work value of a candidate: the first 32 bytes of its digest.
pub open spec fn work_of(time: u32, scope_hash: Seq<u8>, previous_hash: Seq<u8>) -> Seq<u8> {
    blake2b_of(work_message(time, scope_hash, previous_hash)).take(32)
}

/// Which scope a block uses: the previous hash read as a little-endian
/// integer, modulo the number of scopes.
pub open spec fn scope_index_of(previous_hash: Seq<u8>) -> nat {
    le_int(previous_hash) % (SCOPE_COUNT as nat)
}

/// The scope index for the block after `previous_hash`.
pub fn get_scope_index(previous_hash: &[u8]) -> (r: u32)
    requires
        previous_hash@.len() <= 32,
    ensures
        r as nat == scope_index_of(previous_hash@),
        r < SCOPE_COUNT,
{
    let n = previous_hash.len();
    let mut rev: Vec<u8> = Vec::new();
    let mut i: usize = n;
    while i > 0
        invariant
            i <= n,
            n == previous_hash@.len(),
            rev@.len() == n - i,
            forall|k: int| 0 <= k < n - i ==> #[trigger] rev@[k] == previous_hash@[n - 1 - k],
        decreases i,
    {
        i = i - 1;
        rev.push(previous_hash[i]);
    }
    proof {
        assert(rev@.reverse() =~= previous_hash@);
        lemma_be_int_reverse(rev@);
    }
    u256_be_mod(rev.as_slice(), SCOPE_COUNT)
}

/// The 64-byte work digest of a candidate; its first 32 bytes are the work.
pub fn get_work_hash(time: u32, scope_hash: &[u8], previous_hash: &[u8]) -> (r: Vec<u8>)
    ensures
        r@ == blake2b_of(work_message(time, scope_hash@, previous_hash@)),
        r@.len() == 64,
{
    let mut msg: Vec<u8> = Vec::new();
    let t = u32_to_bytes(time);
    let mut i: usize = 0;
    while i < 4
        invariant
            i <= 4,
            t@ == le_bytes_u32(time),
            msg@ == t@.take(i as int),
        decreases 4 - i,
    {
        msg.push(t[i]);
        i = i + 1;
        assert(msg@ =~= t@.take(i as int));
    }
    append_bytes(&mut msg, scope_hash);
    append_bytes(&mut msg, previous_hash);
    assert(t@.take(4) =~= t@);
    blake2b_digest(msg.as_slice())
}

/// The work value of a candidate: the first 32 bytes of its work digest.
pub fn poc_work(time: u32, scope_hash: &[u8], previous_hash: &[u8]) -> (r: Vec<u8>)
    ensures
        r@ == work_of(time, scope_hash@, previous_hash@),
        r@.len() == 32,
{
    let digest = get_work_hash(time, scope_hash, previous_hash);
    let work = copy_bytes(digest.as_slice(), 0, 32);
    assert(work@ =~= work_of(time, scope_hash@, previous_hash@));
    work
}

/// The first 32 bytes of the BLAKE2b digest of `b`.
pub fn blake2b_hash(b: &[u8]) -> (r: Vec<u8>)
    ensures
        r@ == blake2b_of(b@).take(32),
{
    let digest = blake2b_digest(b);
    let head = copy_bytes(digest.as_slice(), 0, 32);
    assert(head@ =~= blake2b_of(b@).take(32));
    head
}

/// Appends the bytes of `src` to `dst`.
fn append_bytes(dst: &mut Vec<u8>, src: &[u8])
    ensures
        final(dst)@ == old(dst)@ + src@,
{
    let ghost d0 = dst@;
    let mut i: usize = 0;
    while i < src.len()
        invariant
            i <= src@.len(),
            dst@ == d0 + src@.take(i as int),
        decreases src@.len() - i,
    {
        dst.push(src[i]);
        i = i + 1;
        assert(dst@ =~= d0 + src@.take(i as int));
    }
    assert(src@.take(src@.len() as int) =~= src@);
}

/// The byte offset of the scope region for `scope_index` in a plot file
/// covering nonces `start..end`.
pub fn scope_offset(scope_index: u32, start: u32, end: u32) -> (r: u64)
    requires
        start <= end,
        scope_index < SCOPE_COUNT,
    ensures
        r == scope_index as int * 32 * (end - start),
{
    let span: u64 = (end - start) as u64;
    assert(scope_index as int * 32 * span <= 16384 * 32 * 0x1_0000_0000) by (nonlinear_arith)
        requires
            scope_index < 16384,
            span <= 0xffff_ffff,
    ;
    scope_index as u64 * 32 * span
}

/// Why a scan of a plot region ended without a hit.
#[derive(Clone, Copy, PartialEq, Eq, Structural, Debug)]
pub enum SeekError {
    /// The time budget ran out; seen at this nonce.
    Timeout { nonce: u32 },
    /// Another worker succeeded; seen at this nonce.
    Cancelled { nonce: u32 },
    /// The region's bytes ended before this nonce's scope hash.
    ShortBuffer { nonce: u32 },
    /// Every nonce of the region was tried.
    Exhausted,
}

/// The 32-byte scope hash of nonce `n` in a region that starts at nonce
/// `start`.
pub open spec fn slot(buffer: Seq<u8>, start: u32, n: int) -> Seq<u8> {
    buffer.subrange((n - start) * 32, (n - start) * 32 + 32)
}

/// The region holds the whole scope hash of nonce `n`.
pub open spec fn covers(buffer: Seq<u8>, start: u32, n: int) -> bool {
    (n - start) * 32 + 32 <= buffer.len()
}

/// Nonce `n` of the region is valid: its work is below the target.
pub open spec fn is_hit(
    buffer: Seq<u8>,
    start: u32,
    n: int,
    time: u32,
    previous_hash: Seq<u8>,
    target: Seq<u8>,
) -> bool {
    covers(buffer, start, n) && le_int(work_of(time, slot(buffer, start, n), previous_hash)) < le_int(target)
}

/// Every nonce from `start` up to `n` was present and not valid.
pub open spec fn no_hit_before(
    buffer: Seq<u8>,
    start: u32,
    n: int,
    time: u32,
    previous_hash: Seq<u8>,
    target: Seq<u8>,
) -> bool {
    forall|m: int|
        start <= m < n ==> covers(buffer, start, m) && !#[trigger] is_hit(buffer, start, m, time, previous_hash, target)
}

/// What a scan of the region `buffer` (nonces `start..end`) may return.
pub open spec fn seek_post(
    buffer: Seq<u8>,
    start: u32,
    end: u32,
    time: u32,
    previous_hash: Seq<u8>,
    target: Seq<u8>,
    r: Result<(u32, Vec<u8>), SeekError>,
) -> bool {
    match r {
        Ok((n, w)) => {
            &&& start <= n < end
            &&& is_hit(buffer, start, n as int, time, previous_hash, target)
            &&& w@ == work_of(time, slot(buffer, start, n as int), previous_hash)
            &&& w@.len() == 32
            &&& no_hit_before(buffer, start, n as int, time, previous_hash, target)
        },
        Err(SeekError::Timeout { nonce }) => {
            &&& start <= nonce < end
            &&& nonce % TIMEOUT_CHECK_INTERVAL == 0
            &&& no_hit_before(buffer, start, nonce as int, time, previous_hash, target)
        },
        Err(SeekError::Cancelled { nonce }) => {
            &&& start <= nonce < end
            &&& nonce % CANCEL_CHECK_INTERVAL == 0
            &&& no_hit_before(buffer, start, nonce as int, time, previous_hash, target)
        },
        Err(SeekError::ShortBuffer { nonce }) => {
            &&& start <= nonce < end
            &&& !covers(buffer, start, nonce as int)
            &&& no_hit_before(buffer, start, nonce as int, time, previous_hash, target)
        },
        Err(SeekError::Exhausted) => no_hit_before(buffer, start, end as int, time, previous_hash, target),
    }
}

/// What the checks at nonce `nonce` decide, given the milliseconds elapsed
/// since the scan's clock and whether the cancellation signal is set: a
/// timeout at multiples of `TIMEOUT_CHECK_INTERVAL` once the budget is
/// exceeded, else a cancellation at multiples of `CANCEL_CHECK_INTERVAL` once
/// the signal is set, else nothing.
pub open spec fn checkpoint_outcome(nonce: u32, elapsed_ms: u128, cancelled: bool) -> Option<SeekError> {
    if nonce % TIMEOUT_CHECK_INTERVAL == 0 && elapsed_ms > SEEK_TIMEOUT_MS {
        Some(SeekError::Timeout { nonce })
    } else if nonce % CANCEL_CHECK_INTERVAL == 0 && cancelled {
        Some(SeekError::Cancelled { nonce })
    } else {
        None
    }
}

/// Decides whether a scan stops at nonce `nonce`, from the milliseconds
/// elapsed and the state of the cancellation signal read there.
pub fn checkpoint(nonce: u32, elapsed_ms: u128, cancelled: bool) -> (r: Option<SeekError>)
    ensures
        r == checkpoint_outcome(nonce, elapsed_ms, cancelled),
{
    if nonce % TIMEOUT_CHECK_INTERVAL == 0 && elapsed_ms > SEEK_TIMEOUT_MS {
        Some(SeekError::Timeout { nonce })
    } else if nonce % CANCEL_CHECK_INTERVAL == 0 && cancelled {
        Some(SeekError::Cancelled { nonce })
    } else {
        None
    }
}

/// Copies `len` bytes of `src` from index `from`.
fn copy_bytes(src: &[u8], from: usize, len: usize) -> (r: Vec<u8>)
    requires
        from + len <= src@.len(),
    ensures
        r@ == src@.subrange(from as int, from + len),
{
    let n = src.len();
    let mut r: Vec<u8> = Vec::new();
    let mut i: usize = 0;
    while i < len
        invariant
            i <= len,
            n == src@.len(),
            from + len <= src@.len(),
            r@ == src@.subrange(from as int, from + i),
        decreases len - i,
    {
        r.push(src[from + i]);
        i = i + 1;
        assert(r@ =~= src@.subrange(from as int, from + i));
    }
    r
}

/// Scans the region `buffer`, which holds the scope hashes of nonces
/// `start..end` one after the other, for the first nonce whose work is below
/// `target`. Before each nonce it reads the clock (at multiples of
/// `TIMEOUT_CHECK_INTERVAL`) and the signal `cancel` (at multiples of
/// `CANCEL_CHECK_INTERVAL`) and stops where `checkpoint` says so.
pub fn seek_area(
    buffer: &[u8],
    start: u32,
    end: u32,
    previous_hash: &[u8],
    target: &[u8],
    time: u32,
    clock: &Instant,
    cancel: &AtomicBool,
) -> (r: Result<(u32, Vec<u8>), SeekError>)
    requires
        start <= end,
        target@.len() == 32,
    ensures
        seek_post(buffer@, start, end, time, previous_hash@, target@, r),
{
    let mut nonce: u32 = start;
    while nonce < end
        invariant
            start <= nonce <= end,
            target@.len() == 32,
            no_hit_before(buffer@, start, nonce as int, time, previous_hash@, target@),
        decreases end - nonce,
    {
        let elapsed: u128 = if nonce % TIMEOUT_CHECK_INTERVAL == 0 {
            clock.elapsed().as_millis()
        } else {
            0
        };
        let cancelled: bool = nonce % CANCEL_CHECK_INTERVAL == 0 && cancel.load(Ordering::SeqCst);
        match checkpoint(nonce, elapsed, cancelled) {
            Some(stop) => {
                return Err(stop);
            },
            None => {},
        }
        let pos: usize = (nonce - start) as usize;
        if pos >= buffer.len() / 32 {
            return Err(SeekError::ShortBuffer { nonce });
        }
        let scope_hash = copy_bytes(buffer, pos * 32, 32);
        let work = poc_work(time, scope_hash.as_slice(), previous_hash);
        if work_check(work.as_slice(), target) {
            return Ok((nonce, work));
        }
        proof {
            assert forall|m: int| start <= m < nonce + 1 implies covers(buffer@, start, m) && !#[trigger] is_hit(
                buffer@,
                start,
                m,
                time,
                previous_hash@,
                target@,
            ) by {
                if m < nonce {
                    assert(no_hit_before(buffer@, start, nonce as int, time, previous_hash@, target@));
                }
            }
        }
        nonce = nonce + 1;
    }
    Err(SeekError::Exhausted)
}

/// Splits nonces `start..end` into `workers` slices of equal size
/// `(end - start) / workers`, in order; the remainder at the end goes to no
/// slice.
pub fn partition_areas(start: u32, end: u32, workers: u32) -> (r: Vec<(u32, u32)>)
    requires
        start <= end,
        workers > 0,
    ensures
        r@.len() == workers,
        forall|i: int|
            0 <= i < workers ==> #[trigger] r@[i] == (
                (start + (end - start) as int / workers as int * i) as u32,
                (start + (end - start) as int / workers as int * (i + 1)) as u32,
            ),
{
    let size: u32 = (end - start) / workers;
    let mut r: Vec<(u32, u32)> = Vec::new();
    let mut i: u32 = 0;
    while i < workers
        invariant
            i <= workers,
            workers > 0,
            start <= end,
            size == (end - start) as int / workers as int,
            r@.len() == i,
            forall|k: int|
                0 <= k < i ==> #[trigger] r@[k] == (
                    (start + size * k) as u32,
                    (start + size * (k + 1)) as u32,
                ),
        decreases workers - i,
    {
        assert(size * (i + 1) <= end - start) by (nonlinear_arith)
            requires
                size == (end - start) as int / workers as int,
                i + 1 <= workers,
                workers > 0,
                start <= end,
        ;
        assert(size * i <= size * (i + 1)) by (nonlinear_arith)
            requires
                i >= 0,
                size >= 0,
        ;
        let a = start + size * i;
        let b = start + size * (i + 1);
        r.push((a, b));
        i = i + 1;
    }
    r
}

/// Whether `r` is a success.
pub open spec fn is_success(r: Result<(u32, Vec<u8>), SeekError>) -> bool {
    match r {
        Ok(_) => true,
        Err(_) => false,
    }
}

/// The first success among the results of the workers, if any.
pub fn first_success(results: Vec<Result<(u32, Vec<u8>), SeekError>>) -> (r: Option<(u32, Vec<u8>)>)
    ensures
        match r {
            Some(v) => exists|i: int|
                0 <= i < results@.len() && #[trigger] results@[i] == Ok::<(u32, Vec<u8>), SeekError>(v) && forall|j: int|
                    0 <= j < i ==> !is_success(#[trigger] results@[j]),
            None => forall|j: int| 0 <= j < results@.len() ==> !is_success(#[trigger] results@[j]),
        },
{
    let ghost all = results@;
    let mut rest = results;
    let total = rest.len();
    let mut taken: usize = 0;
    while rest.len() > 0
        invariant
            total == all.len(),
            all == results@,
            taken + rest@.len() == all.len(),
            rest@ == all.subrange(taken as int, all.len() as int),
            forall|j: int| 0 <= j < taken ==> !is_success(#[trigger] all[j]),
        decreases rest@.len(),
    {
        let item = rest.remove(0);
        proof {
            assert(item == all[taken as int]);
        }
        match item {
            Ok(v) => {
                proof {
                    assert(all[taken as int] == Ok::<(u32, Vec<u8>), SeekError>(v));
                    assert(forall|j: int| 0 <= j < taken ==> !is_success(#[trigger] all[j]));
                    assert(0 <= taken < all.len() && all[taken as int] == Ok::<(u32, Vec<u8>), SeekError>(v) && forall|j: int|
                        0 <= j < taken ==> !is_success(#[trigger] all[j]));
                }
                return Some(v);
            },
            Err(_) => {},
        }
        taken = taken + 1;
        assert(rest@ =~= all.subrange(taken as int, all.len() as int));
    }
    None
}

/// Whatever holds of every success among the workers' results holds of the
/// one `first_success` picks: a reported nonce is always one that its own
/// slice's scan found valid.
pub proof fn lemma_first_success_keeps(
    results: Seq<Result<(u32, Vec<u8>), SeekError>>,
    r: Option<(u32, Vec<u8>)>,
    valid: spec_fn((u32, Vec<u8>)) -> bool,
)
    requires
        forall|i: int|
            0 <= i < results.len() ==> match #[trigger] results[i] {
                Ok(v) => valid(v),
                Err(_) => true,
            },
        match r {
            Some(v) => exists|i: int|
                0 <= i < results.len() && #[trigger] results[i] == Ok::<(u32, Vec<u8>), SeekError>(v),
            None => true,
        },
    ensures
        match r {
            Some(v) => valid(v),
            None => true,
        },
{
    match r {
        Some(v) => {
            let i = choose|i: int| 0 <= i < results.len() && #[trigger] results[i] == Ok::<(u32, Vec<u8>), SeekError>(v);
            assert(valid(v));
        },
        None => {},
    }
}

} // verus!
