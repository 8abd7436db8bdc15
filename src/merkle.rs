//! The Merkle root of a list of transaction hashes, built with double SHA-256.
use crate::utils::{sha256_of, sha256double};
use vstd::prelude::*;

verus! {

/// The byte strings held by a list of byte vectors.
pub open spec fn views(s: Seq<Vec<u8>>) -> Seq<Seq<u8>> {
    s.map_values(|v: Vec<u8>| v@)
}

/// One level up: each adjacent pair hashed together (an odd last item is
/// dropped; callers pad first).
pub open spec fn pair_level(t: Seq<Seq<u8>>) -> Seq<Seq<u8>> {
    Seq::new(t.len() / 2, |i: int| sha256_of(sha256_of(t[2 * i] + t[2 * i + 1])))
}

/// The Merkle root of a non-empty level: pair up, repeating the last item
/// when the count is odd, until one item is left.
pub open spec fn merkle_of(s: Seq<Seq<u8>>) -> Seq<u8>
    decreases s.len(),
{
    if s.len() <= 1 {
        if s.len() == 1 {
            s[0]
        } else {
            Seq::empty()
        }
    } else if s.len() % 2 == 1 {
        merkle_of(pair_level(s.push(s.last())))
    } else {
        merkle_of(pair_level(s))
    }
}

/// A copy of `v`.
fn copy_vec(v: &Vec<u8>) -> (r: Vec<u8>)
    ensures
        r@ == v@,
{
    let mut r: Vec<u8> = Vec::new();
    let mut i: usize = 0;
    while i < v.len()
        invariant
            i <= v@.len(),
            r@ == v@.take(i as int),
        decreases v@.len() - i,
    {
        r.push(v[i]);
        i = i + 1;
        assert(r@ =~= v@.take(i as int));
    }
    assert(v@.take(v@.len() as int) =~= v@);
    r
}

/// The concatenation of `a` and `b`.
fn concat(a: &Vec<u8>, b: &Vec<u8>) -> (r: Vec<u8>)
    ensures
        r@ == a@ + b@,
{
    let mut r = copy_vec(a);
    let mut i: usize = 0;
    while i < b.len()
        invariant
            i <= b@.len(),
            r@ == a@ + b@.take(i as int),
        decreases b@.len() - i,
    {
        r.push(b[i]);
        i = i + 1;
        assert(r@ =~= a@ + b@.take(i as int));
    }
    assert(b@.take(b@.len() as int) =~= b@);
    r
}

/// The Merkle root of `hashes`, or `None` when the list is empty.
pub fn merkleroot_hash(hashes: &Vec<Vec<u8>>) -> (r: Option<Vec<u8>>)
    ensures
        match r {
            Some(root) => hashes@.len() > 0 && root@ == merkle_of(views(hashes@)),
            None => hashes@.len() == 0,
        },
{
    if hashes.len() == 0 {
        return None;
    }
    let mut level: Vec<Vec<u8>> = Vec::new();
    let mut i: usize = 0;
    while i < hashes.len()
        invariant
            i <= hashes@.len(),
            level@.len() == i,
            views(level@) == views(hashes@).take(i as int),
        decreases hashes@.len() - i,
    {
        level.push(copy_vec(&hashes[i]));
        i = i + 1;
        assert(views(level@) =~= views(hashes@).take(i as int));
    }
    assert(views(hashes@).take(hashes@.len() as int) =~= views(hashes@));
    while level.len() > 1
        invariant
            level@.len() >= 1,
            merkle_of(views(level@)) == merkle_of(views(hashes@)),
        decreases level@.len(),
    {
        let ghost before = views(level@);
        if level.len() % 2 == 1 {
            let last = copy_vec(&level[level.len() - 1]);
            level.push(last);
            assert(views(level@) =~= before.push(before.last()));
        }
        let ghost padded = views(level@);
        let n = level.len();
        let half = n / 2;
        let mut next: Vec<Vec<u8>> = Vec::new();
        let mut k: usize = 0;
        while k < half
            invariant
                k <= half,
                n == level@.len(),
                half == n / 2,
                next@.len() == k,
                padded == views(level@),
                views(next@) == pair_level(padded).take(k as int),
            decreases half - k,
        {
            let data = concat(&level[2 * k], &level[2 * k + 1]);
            let h = sha256double(data.as_slice());
            proof {
                assert(h@ == pair_level(padded)[k as int]);
            }
            next.push(h);
            k = k + 1;
            assert(views(next@) =~= pair_level(padded).take(k as int));
        }
        assert(views(next@) =~= pair_level(padded));
        level = next;
    }
    let root = copy_vec(&level[0]);
    Some(root)
}

} // verus!
