//! Little-endian integer encoding and lexicographic ordering of byte strings.
//!
//! The canonical metadata encoding stores every numeric field as eight
//! little-endian bytes; the canonical child order of a directory is the
//! lexicographic order of the children's node hashes.

use vstd::prelude::*;

verus! {

/// The eight little-endian bytes of a 64-bit integer.
pub open spec fn u64_le_bytes(n: u64) -> Seq<u8> {
    seq![
        (n & 0xff) as u8,
        ((n >> 8) & 0xff) as u8,
        ((n >> 16) & 0xff) as u8,
        ((n >> 24) & 0xff) as u8,
        ((n >> 32) & 0xff) as u8,
        ((n >> 40) & 0xff) as u8,
        ((n >> 48) & 0xff) as u8,
        ((n >> 56) & 0xff) as u8,
    ]
}

/// The 64-bit integer read from eight little-endian bytes.
pub open spec fn le_bytes_to_u64(s: Seq<u8>) -> u64
    recommends
        s.len() == 8,
{
    ((s[0] as u64) | ((s[1] as u64) << 8) | ((s[2] as u64) << 16) | ((s[3] as u64) << 24)
        | ((s[4] as u64) << 32) | ((s[5] as u64) << 40) | ((s[6] as u64) << 48) | ((s[7] as u64)
        << 56)) as u64
}

/// Reading back the eight little-endian bytes of `n` yields `n`.
pub proof fn lemma_u64_le_round_trip(n: u64)
    ensures
        le_bytes_to_u64(u64_le_bytes(n)) == n,
{
    let s = u64_le_bytes(n);
    assert(((((n & 0xff) as u8) as u64) | ((((n >> 8) & 0xff) as u8) as u64) << 8 | ((((n >> 16)
        & 0xff) as u8) as u64) << 16 | ((((n >> 24) & 0xff) as u8) as u64) << 24 | ((((n >> 32)
        & 0xff) as u8) as u64) << 32 | ((((n >> 40) & 0xff) as u8) as u64) << 40 | ((((n >> 48)
        & 0xff) as u8) as u64) << 48 | ((((n >> 56) & 0xff) as u8) as u64) << 56) == n)
        by (bit_vector);
    assert(s[0] == (n & 0xff) as u8);
}

/// Appends the eight little-endian bytes of `n` to `out`.
pub fn push_u64_le(out: &mut Vec<u8>, n: u64)
    ensures
        final(out)@ == old(out)@ + u64_le_bytes(n),
{
    out.push((n & 0xff) as u8);
    out.push(((n >> 8) & 0xff) as u8);
    out.push(((n >> 16) & 0xff) as u8);
    out.push(((n >> 24) & 0xff) as u8);
    out.push(((n >> 32) & 0xff) as u8);
    out.push(((n >> 40) & 0xff) as u8);
    out.push(((n >> 48) & 0xff) as u8);
    out.push(((n >> 56) & 0xff) as u8);
    assert(out@ =~= old(out)@ + u64_le_bytes(n));
}

/// Reads the 64-bit integer stored in little-endian order at `b[off..off + 8]`.
pub fn read_u64_le(b: &[u8], off: usize) -> (r: u64)
    requires
        off + 8 <= b@.len(),
    ensures
        r == le_bytes_to_u64(b@.subrange(off as int, off as int + 8)),
{
    let r: u64 = (b[off] as u64) | ((b[off + 1] as u64) << 8) | ((b[off + 2] as u64) << 16) | ((
    b[off + 3] as u64) << 24) | ((b[off + 4] as u64) << 32) | ((b[off + 5] as u64) << 40) | ((b[off
        + 6] as u64) << 48) | ((b[off + 7] as u64) << 56);
    proof {
        let s = b@.subrange(off as int, off as int + 8);
        assert(s[0] == b@[off as int]);
        assert(s[1] == b@[off as int + 1]);
        assert(s[2] == b@[off as int + 2]);
        assert(s[3] == b@[off as int + 3]);
        assert(s[4] == b@[off as int + 4]);
        assert(s[5] == b@[off as int + 5]);
        assert(s[6] == b@[off as int + 6]);
        assert(s[7] == b@[off as int + 7]);
    }
    r
}

/// Compares two byte strings for equality.
pub fn bytes_eq(a: &[u8], b: &[u8]) -> (r: bool)
    ensures
        r == (a@ == b@),
{
    if a.len() != b.len() {
        return false;
    }
    let n = a.len();
    let mut i: usize = 0;
    while i < n
        invariant
            n == a@.len(),
            n == b@.len(),
            i <= n,
            forall|j: int| 0 <= j < i ==> a@[j] == b@[j],
        decreases n - i,
    {
        if a[i] != b[i] {
            return false;
        }
        i = i + 1;
    }
    proof {
        assert(a@ =~= b@);
    }
    true
}

/// The bytes of `d` with `p` written at `off`, growing the string when
/// the write runs past its end.
pub open spec fn splice_spec(d: Seq<u8>, off: int, p: Seq<u8>) -> Seq<u8> {
    if off + p.len() >= d.len() {
        d.take(off) + p
    } else {
        d.take(off) + p + d.skip(off + p.len())
    }
}

/// Writes `p` into a copy of `d` at `off`, growing it as needed.
pub fn splice(d: &Vec<u8>, off: usize, p: &[u8]) -> (r: Vec<u8>)
    requires
        off <= d@.len(),
        off + p@.len() <= usize::MAX,
    ensures
        r@ == splice_spec(d@, off as int, p@),
        r@.len() == if off + p@.len() >= d@.len() {
            off + p@.len()
        } else {
            d@.len() as int
        },
{
    let head = vstd::slice::slice_subrange(d.as_slice(), 0, off);
    let mut out = vstd::slice::slice_to_vec(head);
    out.extend_from_slice(p);
    let tail_start = off + p.len();
    if tail_start < d.len() {
        let tail = vstd::slice::slice_subrange(d.as_slice(), tail_start, d.len());
        out.extend_from_slice(tail);
        proof {
            assert(out@ =~= splice_spec(d@, off as int, p@));
        }
    } else {
        proof {
            assert(out@ =~= splice_spec(d@, off as int, p@));
        }
    }
    out
}

/// Truncates or zero-extends a byte string to length `n`.
pub fn resize_zero(d: &mut Vec<u8>, n: usize)
    ensures
        final(d)@.len() == n,
        forall|i: int| 0 <= i < n && i < old(d)@.len() ==> final(d)@[i] == old(d)@[i],
        forall|i: int| old(d)@.len() <= i < n ==> final(d)@[i] == 0,
{
    if n <= d.len() {
        d.truncate(n);
        return ;
    }
    let ghost orig = d@;
    proof {
        assert(d@.subrange(0, orig.len() as int) =~= orig);
    }
    while d.len() < n
        invariant
            orig.len() <= d@.len() <= n,
            d@.subrange(0, orig.len() as int) == orig,
            forall|i: int| orig.len() <= i < d@.len() ==> d@[i] == 0,
        decreases n - d@.len(),
    {
        d.push(0);
        proof {
            assert(d@.subrange(0, orig.len() as int) =~= orig);
        }
    }
}

/// Lexicographic order on byte strings: `a` is no later than `b`.
pub open spec fn lex_le(a: Seq<u8>, b: Seq<u8>) -> bool
    decreases a.len(),
{
    if a.len() == 0 {
        true
    } else if b.len() == 0 {
        false
    } else if a[0] < b[0] {
        true
    } else if a[0] > b[0] {
        false
    } else {
        lex_le(a.skip(1), b.skip(1))
    }
}

/// `lex_le` holds in at least one direction between any two byte strings.
pub proof fn lemma_lex_le_connected(a: Seq<u8>, b: Seq<u8>)
    ensures
        lex_le(a, b) || lex_le(b, a),
    decreases a.len(),
{
    if a.len() != 0 && b.len() != 0 && a[0] == b[0] {
        lemma_lex_le_connected(a.skip(1), b.skip(1));
    }
}

/// `lex_le` in both directions forces equality.
pub proof fn lemma_lex_le_antisymmetric(a: Seq<u8>, b: Seq<u8>)
    requires
        lex_le(a, b),
        lex_le(b, a),
    ensures
        a == b,
    decreases a.len(),
{
    if a.len() != 0 && b.len() != 0 && a[0] == b[0] {
        lemma_lex_le_antisymmetric(a.skip(1), b.skip(1));
        assert(a =~= seq![a[0]] + a.skip(1));
        assert(b =~= seq![b[0]] + b.skip(1));
    } else {
        if a.len() == 0 {
            assert(b.len() == 0);
        }
        assert(a =~= b);
    }
}

/// `lex_le` is transitive.
pub proof fn lemma_lex_le_transitive(a: Seq<u8>, b: Seq<u8>, c: Seq<u8>)
    requires
        lex_le(a, b),
        lex_le(b, c),
    ensures
        lex_le(a, c),
    decreases a.len(),
{
    if a.len() != 0 && b.len() != 0 && c.len() != 0 && a[0] == b[0] && b[0] == c[0] {
        lemma_lex_le_transitive(a.skip(1), b.skip(1), c.skip(1));
    }
}

/// Compares two byte strings in lexicographic order.
pub fn lex_le_bytes(a: &Vec<u8>, b: &Vec<u8>) -> (r: bool)
    ensures
        r == lex_le(a@, b@),
{
    let mut i: usize = 0;
    proof {
        assert(a@.skip(0) =~= a@);
        assert(b@.skip(0) =~= b@);
    }
    loop
        invariant
            i <= a@.len(),
            i <= b@.len(),
            lex_le(a@, b@) == lex_le(a@.skip(i as int), b@.skip(i as int)),
        decreases a@.len() - i,
    {
        if i == a.len() {
            proof {
                assert(a@.skip(i as int).len() == 0);
            }
            return true;
        }
        if i == b.len() {
            proof {
                assert(b@.skip(i as int).len() == 0);
                assert(a@.skip(i as int).len() != 0);
            }
            return false;
        }
        let x = a[i];
        let y = b[i];
        proof {
            assert(a@.skip(i as int)[0] == a@[i as int]);
            assert(b@.skip(i as int)[0] == b@[i as int]);
            assert(a@.skip(i as int).skip(1) =~= a@.skip(i as int + 1));
            assert(b@.skip(i as int).skip(1) =~= b@.skip(i as int + 1));
        }
        if x < y {
            return true;
        }
        if x > y {
            return false;
        }
        i = i + 1;
    }
}

} // verus!
