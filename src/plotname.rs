//! Plot file names: `optimized.<ADDR>-<START>-<END>.dat`, with `ADDR` in
//! `[a-z0-9]+` and `START`, `END` decimal.
use vstd::prelude::*;

verus! {

/// The fields of a plot file name.
pub struct PlotName {
    /// The address identifier, as its ASCII bytes.
    pub address: Vec<u8>,
    /// First nonce of the file.
    pub start: u32,
    /// One past the last nonce of the file.
    pub end: u32,
}

/// `optimized.`
pub open spec fn name_prefix() -> Seq<u8> {
    seq![111u8, 112u8, 116u8, 105u8, 109u8, 105u8, 122u8, 101u8, 100u8, 46u8]
}

/// `.dat`
pub open spec fn name_suffix() -> Seq<u8> {
    seq![46u8, 100u8, 97u8, 116u8]
}

pub open spec fn is_digit(c: u8) -> bool {
    48 <= c <= 57
}

/// `[a-z0-9]`
pub open spec fn is_addr_byte(c: u8) -> bool {
    is_digit(c) || (97 <= c <= 122)
}

/// The value of a string of decimal digits, most significant first.
pub open spec fn dec_value(s: Seq<u8>) -> nat
    decreases s.len(),
{
    if s.len() == 0 {
        0
    } else {
        dec_value(s.drop_last()) * 10 + (s.last() - 48) as nat
    }
}

/// `b` reads `optimized.<addr>-<s>-<e>.dat` with each part well formed.
pub open spec fn name_parts(b: Seq<u8>, addr: Seq<u8>, s: Seq<u8>, e: Seq<u8>) -> bool {
    &&& b == name_prefix() + addr + seq![45u8] + s + seq![45u8] + e + name_suffix()
    &&& addr.len() > 0 && forall|k: int| 0 <= k < addr.len() ==> is_addr_byte(#[trigger] addr[k])
    &&& s.len() > 0 && forall|k: int| 0 <= k < s.len() ==> is_digit(#[trigger] s[k])
    &&& e.len() > 0 && forall|k: int| 0 <= k < e.len() ==> is_digit(#[trigger] e[k])
}

/// `b` is a well-formed plot file name for address `addr` and nonces
/// `start..end`, a non-empty range.
pub open spec fn names_plot(b: Seq<u8>, addr: Seq<u8>, start: u32, end: u32) -> bool {
    exists|s: Seq<u8>, e: Seq<u8>|
        #[trigger] name_parts(b, addr, s, e) && start == dec_value(s) && end == dec_value(e) && start < end
}

/// Where each part of a well-formed name lies.
proof fn lemma_parts_shape(b: Seq<u8>, addr: Seq<u8>, s: Seq<u8>, e: Seq<u8>)
    requires
        name_parts(b, addr, s, e),
    ensures
        ({
            let i1: int = 10 + addr.len() as int;
            let i2: int = i1 + 1 + s.len();
            let i3: int = i2 + 1 + e.len();
            &&& b.len() == i3 + 4
            &&& b.subrange(0, 10) == name_prefix()
            &&& b.subrange(10, i1 as int) == addr
            &&& b[i1 as int] == 45u8
            &&& b.subrange(i1 + 1, i2 as int) == s
            &&& b[i2 as int] == 45u8
            &&& b.subrange(i2 + 1, i3 as int) == e
            &&& b.subrange(i3 as int, i3 + 4) == name_suffix()
        }),
{
    let i1: int = 10 + addr.len() as int;
    let i2: int = i1 + 1 + s.len();
    let i3: int = i2 + 1 + e.len();
    let p1 = name_prefix() + addr;
    let p2 = p1 + seq![45u8];
    let p3 = p2 + s;
    let p4 = p3 + seq![45u8];
    let p5 = p4 + e;
    assert(b == p5 + name_suffix());
    assert(b.subrange(0, 10) =~= name_prefix());
    assert(b.subrange(10, i1 as int) =~= addr);
    assert(b[i1 as int] == p2[i1 as int]);
    assert(b.subrange(i1 + 1, i2 as int) =~= s);
    assert(b[i2 as int] == p4[i2 as int]);
    assert(b.subrange(i2 + 1, i3 as int) =~= e);
    assert(b.subrange(i3 as int, i3 + 4) =~= name_suffix());
}

/// The end of the run of address bytes of `b` that starts at `from`.
fn addr_run_end(b: &[u8], from: usize) -> (r: usize)
    requires
        from <= b@.len(),
    ensures
        from <= r <= b@.len(),
        forall|k: int| from <= k < r ==> is_addr_byte(#[trigger] b@[k]),
        r < b@.len() ==> !is_addr_byte(b@[r as int]),
{
    let mut i: usize = from;
    while i < b.len() && ((48 <= b[i] && b[i] <= 57) || (97 <= b[i] && b[i] <= 122))
        invariant
            from <= i <= b@.len(),
            forall|k: int| from <= k < i ==> is_addr_byte(#[trigger] b@[k]),
        decreases b@.len() - i,
    {
        i = i + 1;
    }
    i
}

/// The end of the run of digits of `b` that starts at `from`.
fn digit_run_end(b: &[u8], from: usize) -> (r: usize)
    requires
        from <= b@.len(),
    ensures
        from <= r <= b@.len(),
        forall|k: int| from <= k < r ==> is_digit(#[trigger] b@[k]),
        r < b@.len() ==> !is_digit(b@[r as int]),
{
    let mut i: usize = from;
    while i < b.len() && 48 <= b[i] && b[i] <= 57
        invariant
            from <= i <= b@.len(),
            forall|k: int| from <= k < i ==> is_digit(#[trigger] b@[k]),
        decreases b@.len() - i,
    {
        i = i + 1;
    }
    i
}

/// The value of the digits `b[from..to]`, or `2^32` if it is at least that.
fn dec_saturating(b: &[u8], from: usize, to: usize) -> (r: u64)
    requires
        from <= to <= b@.len(),
        forall|k: int| from <= k < to ==> is_digit(#[trigger] b@[k]),
    ensures
        r == if dec_value(b@.subrange(from as int, to as int)) < 0x1_0000_0000 {
            dec_value(b@.subrange(from as int, to as int))
        } else {
            0x1_0000_0000
        },
{
    let mut v: u64 = 0;
    let mut i: usize = from;
    while i < to
        invariant
            from <= i <= to <= b@.len(),
            forall|k: int| from <= k < to ==> is_digit(#[trigger] b@[k]),
            v == if dec_value(b@.subrange(from as int, i as int)) < 0x1_0000_0000 {
                dec_value(b@.subrange(from as int, i as int))
            } else {
                0x1_0000_0000
            },
        decreases to - i,
    {
        let ghost prev = b@.subrange(from as int, i as int);
        let ghost next = b@.subrange(from as int, i + 1);
        assert(next.drop_last() =~= prev);
        assert(next.last() == b@[i as int]);
        let d = (b[i] - 48) as u64;
        if v < 0x1_0000_0000 {
            v = v * 10 + d;
            if v >= 0x1_0000_0000 {
                v = 0x1_0000_0000;
            }
        }
        i = i + 1;
    }
    v
}

/// Reads a plot file name. Returns `None` when the name does not have the
/// form `optimized.<ADDR>-<START>-<END>.dat`, when `END` does not fit in 32
/// bits, or when `START` is not below `END`.
#[verifier::rlimit(40)]
pub fn parse_plot_name(name: &[u8]) -> (r: Option<PlotName>)
    ensures
        match r {
            Some(p) => names_plot(name@, p.address@, p.start, p.end),
            None => forall|addr: Seq<u8>, s: Seq<u8>, e: Seq<u8>|
                #[trigger] name_parts(name@, addr, s, e) ==> dec_value(s) >= dec_value(e) || dec_value(e)
                    > 0xffff_ffff,
        },
{
    let b = name;
    let n = b.len();
    if n < 10 || b[0] != 111 || b[1] != 112 || b[2] != 116 || b[3] != 105 || b[4] != 109 || b[5] != 105
        || b[6] != 122 || b[7] != 101 || b[8] != 100 || b[9] != 46 {
        proof {
            assert forall|addr: Seq<u8>, s: Seq<u8>, e: Seq<u8>| #[trigger] name_parts(b@, addr, s, e) implies false by {
                lemma_parts_shape(b@, addr, s, e);
                assert(b@.subrange(0, 10)[0] == b@[0]);
                assert(b@.subrange(0, 10)[1] == b@[1]);
                assert(b@.subrange(0, 10)[2] == b@[2]);
                assert(b@.subrange(0, 10)[3] == b@[3]);
                assert(b@.subrange(0, 10)[4] == b@[4]);
                assert(b@.subrange(0, 10)[5] == b@[5]);
                assert(b@.subrange(0, 10)[6] == b@[6]);
                assert(b@.subrange(0, 10)[7] == b@[7]);
                assert(b@.subrange(0, 10)[8] == b@[8]);
                assert(b@.subrange(0, 10)[9] == b@[9]);
            }
        }
        return None;
    }
    let r1 = addr_run_end(b, 10);
    proof {
        assert forall|addr: Seq<u8>, s: Seq<u8>, e: Seq<u8>| #[trigger] name_parts(b@, addr, s, e) implies r1 == 10
            + addr.len() by {
            lemma_parts_shape(b@, addr, s, e);
            let i1: int = 10 + addr.len() as int;
            if r1 < i1 {
                assert(b@.subrange(10, i1 as int)[r1 - 10] == b@[r1 as int]);
            } else if r1 > i1 {
                assert(is_addr_byte(b@[i1 as int]));
            }
        }
    }
    if r1 == 10 || r1 >= n || b[r1] != 45 {
        return None;
    }
    let r2 = digit_run_end(b, r1 + 1);
    proof {
        assert forall|addr: Seq<u8>, s: Seq<u8>, e: Seq<u8>| #[trigger] name_parts(b@, addr, s, e) implies r2 == r1
            + 1 + s.len() by {
            lemma_parts_shape(b@, addr, s, e);
            let i2 = r1 + 1 + s.len();
            if r2 < i2 {
                assert(b@.subrange(r1 + 1, i2 as int)[r2 - r1 - 1] == b@[r2 as int]);
            } else if r2 > i2 {
                assert(is_digit(b@[i2 as int]));
            }
        }
    }
    if r2 == r1 + 1 || r2 >= n || b[r2] != 45 {
        return None;
    }
    let r3 = digit_run_end(b, r2 + 1);
    proof {
        assert forall|addr: Seq<u8>, s: Seq<u8>, e: Seq<u8>| #[trigger] name_parts(b@, addr, s, e) implies r3 == r2
            + 1 + e.len() by {
            lemma_parts_shape(b@, addr, s, e);
            let i3 = r2 + 1 + e.len();
            if r3 < i3 {
                assert(b@.subrange(r2 + 1, i3 as int)[r3 - r2 - 1] == b@[r3 as int]);
            } else if r3 > i3 {
                assert(b@.subrange(i3 as int, i3 + 4)[0] == b@[i3 as int]);
                assert(is_digit(b@[i3 as int]));
            }
        }
    }
    if r3 == r2 + 1 || r3 > n || n - r3 != 4 || b[r3] != 46 || b[r3 + 1] != 100 || b[r3 + 2] != 97 || b[r3 + 3]
        != 116 {
        proof {
            assert forall|addr: Seq<u8>, s: Seq<u8>, e: Seq<u8>| #[trigger] name_parts(b@, addr, s, e) implies false by {
                lemma_parts_shape(b@, addr, s, e);
                let i3 = r3;
                assert(b@.subrange(i3 as int, i3 + 4)[0] == b@[i3 as int]);
                assert(b@.subrange(i3 as int, i3 + 4)[1] == b@[i3 + 1]);
                assert(b@.subrange(i3 as int, i3 + 4)[2] == b@[i3 + 2]);
                assert(b@.subrange(i3 as int, i3 + 4)[3] == b@[i3 + 3]);
            }
        }
        return None;
    }
    let start = dec_saturating(b, r1 + 1, r2);
    let end = dec_saturating(b, r2 + 1, r3);
    let ghost addr = b@.subrange(10, r1 as int);
    let ghost s = b@.subrange(r1 + 1, r2 as int);
    let ghost e = b@.subrange(r2 + 1, r3 as int);
    proof {
        assert(b@ =~= name_prefix() + addr + seq![45u8] + s + seq![45u8] + e + name_suffix());
        assert forall|k: int| 0 <= k < addr.len() implies is_addr_byte(#[trigger] addr[k]) by {
            assert(addr[k] == b@[10 + k]);
        }
        assert forall|k: int| 0 <= k < s.len() implies is_digit(#[trigger] s[k]) by {
            assert(s[k] == b@[r1 + 1 + k]);
        }
        assert forall|k: int| 0 <= k < e.len() implies is_digit(#[trigger] e[k]) by {
            assert(e[k] == b@[r2 + 1 + k]);
        }
        assert(name_parts(b@, addr, s, e));
        assert forall|addr2: Seq<u8>, s2: Seq<u8>, e2: Seq<u8>| #[trigger] name_parts(b@, addr2, s2, e2) implies s2
            == s && e2 == e by {
            lemma_parts_shape(b@, addr2, s2, e2);
        }
    }
    if end >= 0x1_0000_0000 || start >= end {
        return None;
    }
    let address = copy_prefix(b, 10, r1);
    proof {
        assert(address@ == addr);
        assert(start == dec_value(s));
        assert(end == dec_value(e));
        assert(name_parts(name@, address@, s, e));
    }
    let parsed = PlotName { address, start: start as u32, end: end as u32 };
    proof {
        assert(name_parts(name@, parsed.address@, s, e) && parsed.start == dec_value(s) && parsed.end == dec_value(e)
            && parsed.start < parsed.end);
        assert(names_plot(name@, parsed.address@, parsed.start, parsed.end));
    }
    Some(parsed)
}

/// The bytes `b[from..to]`.
fn copy_prefix(b: &[u8], from: usize, to: usize) -> (r: Vec<u8>)
    requires
        from <= to <= b@.len(),
    ensures
        r@ == b@.subrange(from as int, to as int),
{
    let mut r: Vec<u8> = Vec::new();
    let mut i: usize = from;
    while i < to
        invariant
            from <= i <= to <= b@.len(),
            r@ == b@.subrange(from as int, i as int),
        decreases to - i,
    {
        r.push(b[i]);
        i = i + 1;
        assert(r@ =~= b@.subrange(from as int, i as int));
    }
    r
}

} // verus!
