//! Byte-level building blocks shared by the tag formats.

use vstd::prelude::*;
use vstd::slice::slice_subrange;

verus! {

/// The low 32 bits of `n`, most significant byte first.
#[verifier::opaque]
pub open spec fn be32(n: int) -> Seq<u8> {
    seq![
        ((n / 16777216) % 256) as u8,
        ((n / 65536) % 256) as u8,
        ((n / 256) % 256) as u8,
        (n % 256) as u8,
    ]
}

/// The low 24 bits of `n`, most significant byte first.
#[verifier::opaque]
pub open spec fn be24(n: int) -> Seq<u8> {
    seq![((n / 65536) % 256) as u8, ((n / 256) % 256) as u8, (n % 256) as u8]
}

/// The low 32 bits of `n`, least significant byte first.
#[verifier::opaque]
pub open spec fn le32(n: int) -> Seq<u8> {
    seq![
        (n % 256) as u8,
        ((n / 256) % 256) as u8,
        ((n / 65536) % 256) as u8,
        ((n / 16777216) % 256) as u8,
    ]
}

/// The big-endian 32-bit number that starts at `p`.
pub open spec fn be32_at(s: Seq<u8>, p: int) -> int {
    s[p] * 16777216 + s[p + 1] * 65536 + s[p + 2] * 256 + s[p + 3]
}

/// The big-endian 24-bit number that starts at `p`.
pub open spec fn be24_at(s: Seq<u8>, p: int) -> int {
    s[p] * 65536 + s[p + 1] * 256 + s[p + 2]
}

/// The little-endian 32-bit number that starts at `p`.
pub open spec fn le32_at(s: Seq<u8>, p: int) -> int {
    s[p] + s[p + 1] * 256 + s[p + 2] * 65536 + s[p + 3] * 16777216
}

/// All parts, one after the other.
pub open spec fn concat(parts: Seq<Seq<u8>>) -> Seq<u8>
    decreases parts.len(),
{
    if parts.len() == 0 {
        Seq::empty()
    } else {
        parts[0] + concat(parts.skip(1))
    }
}

/// The number of leading elements that differ from `x`: the position of the
/// first `x`, or the length where there is none.
pub open spec fn first_index<T>(s: Seq<T>, x: T) -> int
    decreases s.len(),
{
    if s.len() == 0 || s[0] == x {
        0
    } else {
        1 + first_index(s.skip(1), x)
    }
}

/// Whether `s` begins with `prefix`.
pub open spec fn begins_with(s: Seq<u8>, prefix: Seq<u8>) -> bool {
    prefix.len() <= s.len() && s.take(prefix.len() as int) == prefix
}

/// `first_index` is the one position without `x` before it and with `x` on it,
/// or the end.
pub proof fn lemma_first_index<T>(s: Seq<T>, x: T, k: int)
    requires
        0 <= k <= s.len(),
        forall|j: int| 0 <= j < k ==> s[j] != x,
        k < s.len() ==> s[k] == x,
    ensures
        first_index(s, x) == k,
    decreases k,
{
    if k > 0 {
        assert forall|j: int| 0 <= j < k - 1 implies s.skip(1)[j] != x by {
            assert(s.skip(1)[j] == s[j + 1]);
        }
        lemma_first_index(s.skip(1), x, k - 1);
    }
}

/// What `first_index` says of the elements around it.
pub proof fn lemma_first_index_props<T>(s: Seq<T>, x: T)
    ensures
        0 <= first_index(s, x) <= s.len(),
        forall|j: int| 0 <= j < first_index(s, x) ==> s[j] != x,
        first_index(s, x) < s.len() ==> s[first_index(s, x)] == x,
    decreases s.len(),
{
    if s.len() > 0 && s[0] != x {
        lemma_first_index_props(s.skip(1), x);
        assert forall|j: int| 0 <= j < first_index(s, x) implies s[j] != x by {
            if j > 0 {
                assert(s[j] == s.skip(1)[j - 1]);
            }
        }
    }
}

pub proof fn lemma_concat_one(part: Seq<u8>)
    ensures
        concat(seq![part]) == part,
{
    reveal_with_fuel(concat, 2);
    assert(seq![part].skip(1) =~= Seq::<Seq<u8>>::empty());
    assert(part + Seq::<u8>::empty() =~= part);
}

pub proof fn lemma_concat_cons(part: Seq<u8>, parts: Seq<Seq<u8>>)
    ensures
        concat(seq![part] + parts) == part + concat(parts),
{
    assert((seq![part] + parts).skip(1) =~= parts);
}

/// How many bytes a number takes.
pub broadcast proof fn lemma_be32_len(n: int)
    ensures
        #[trigger] be32(n).len() == 4,
{
    reveal(be32);
}

/// How many bytes a number takes.
pub broadcast proof fn lemma_be24_len(n: int)
    ensures
        #[trigger] be24(n).len() == 3,
{
    reveal(be24);
}

/// How many bytes a number takes.
pub broadcast proof fn lemma_le32_len(n: int)
    ensures
        #[trigger] le32(n).len() == 4,
{
    reveal(le32);
}

/// How many bytes each kind of number takes.
pub broadcast group number_lengths {
    lemma_be32_len,
    lemma_be24_len,
    lemma_le32_len,
}

/// Reading back a big-endian number gives its low 32 bits.
pub proof fn lemma_be32_read(n: int)
    requires
        0 <= n,
    ensures
        be32(n).len() == 4,
        be32_at(be32(n), 0) == n % 4294967296,
{
    reveal(be32);
    lemma_low_bytes(n);
}

/// Reading back a big-endian number gives its low 24 bits.
pub proof fn lemma_be24_read(n: int)
    requires
        0 <= n,
    ensures
        be24(n).len() == 3,
        be24_at(be24(n), 0) == n % 16777216,
{
    reveal(be24);
    lemma_low_bytes(n);
}

/// Reading back a little-endian number gives its low 32 bits.
pub proof fn lemma_le32_read(n: int)
    requires
        0 <= n,
    ensures
        le32(n).len() == 4,
        le32_at(le32(n), 0) == n % 4294967296,
{
    reveal(le32);
    lemma_low_bytes(n);
}

/// A little-endian number is read where it stands.
pub proof fn lemma_le32_at(s: Seq<u8>, p: int, n: int)
    requires
        0 <= p,
        p + 4 <= s.len(),
        0 <= n < 4294967296,
        s.subrange(p, p + 4) == le32(n),
    ensures
        le32_at(s, p) == n,
{
    reveal(le32);
    lemma_le32_read(n);
    let part = s.subrange(p, p + 4);
    assert(part[0] == s[p] && part[1] == s[p + 1] && part[2] == s[p + 2] && part[3] == s[p + 3]);
}

proof fn lemma_low_bytes(n: int)
    requires
        0 <= n,
    ensures
        n % 4294967296 == ((n / 16777216) % 256) * 16777216 + ((n / 65536) % 256) * 65536 + ((n
            / 256) % 256) * 256 + n % 256,
        n % 16777216 == ((n / 65536) % 256) * 65536 + ((n / 256) % 256) * 256 + n % 256,
{
}

/// Appends `other` to `out`.
pub fn append(out: &mut Vec<u8>, other: &[u8])
    ensures
        final(out)@ == old(out)@ + other@,
{
    out.extend_from_slice(other);
    assert(out@ =~= old(out)@ + other@);
}

/// A copy of `s[from..to]`.
pub fn copy_range(s: &[u8], from: usize, to: usize) -> (part: Vec<u8>)
    requires
        from <= to <= s@.len(),
    ensures
        part@ == s@.subrange(from as int, to as int),
{
    vstd::slice::slice_to_vec(slice_subrange(s, from, to))
}

/// Whether `s` begins with `prefix`.
pub fn starts_with(s: &[u8], prefix: &[u8]) -> (yes: bool)
    ensures
        yes == begins_with(s@, prefix@),
{
    if prefix.len() > s.len() {
        return false;
    }
    let mut i: usize = 0;
    while i < prefix.len()
        invariant
            i <= prefix@.len() <= s@.len(),
            forall|j: int| 0 <= j < i ==> s@[j] == prefix@[j],
        decreases prefix.len() - i,
    {
        if s[i] != prefix[i] {
            assert(s@.take(prefix@.len() as int)[i as int] != prefix@[i as int]);
            return false;
        }
        i += 1;
    }
    assert(s@.take(prefix@.len() as int) =~= prefix@);
    true
}

/// Whether both slices hold the same bytes.
pub fn same_bytes(a: &[u8], b: &[u8]) -> (same: bool)
    ensures
        same == (a@ == b@),
{
    if a.len() != b.len() {
        return false;
    }
    let mut i: usize = 0;
    while i < a.len()
        invariant
            i <= a@.len() == b@.len(),
            forall|j: int| 0 <= j < i ==> a@[j] == b@[j],
        decreases a.len() - i,
    {
        if a[i] != b[i] {
            return false;
        }
        i += 1;
    }
    assert(a@ =~= b@);
    true
}

/// Appends the low 32 bits of `n`, most significant byte first.
pub fn push_be32(out: &mut Vec<u8>, n: usize)
    ensures
        final(out)@ == old(out)@ + be32(n as int),
{
    out.push(((n / 16777216) % 256) as u8);
    out.push(((n / 65536) % 256) as u8);
    out.push(((n / 256) % 256) as u8);
    out.push((n % 256) as u8);
    reveal(be32);
    assert(out@ =~= old(out)@ + be32(n as int));
}

/// Appends the low 24 bits of `n`, most significant byte first.
pub fn push_be24(out: &mut Vec<u8>, n: usize)
    ensures
        final(out)@ == old(out)@ + be24(n as int),
{
    out.push(((n / 65536) % 256) as u8);
    out.push(((n / 256) % 256) as u8);
    out.push((n % 256) as u8);
    reveal(be24);
    assert(out@ =~= old(out)@ + be24(n as int));
}

/// Appends the low 32 bits of `n`, least significant byte first.
pub fn push_le32(out: &mut Vec<u8>, n: usize)
    ensures
        final(out)@ == old(out)@ + le32(n as int),
{
    out.push((n % 256) as u8);
    out.push(((n / 256) % 256) as u8);
    out.push(((n / 65536) % 256) as u8);
    out.push(((n / 16777216) % 256) as u8);
    reveal(le32);
    assert(out@ =~= old(out)@ + le32(n as int));
}

/// Reads the big-endian 32-bit number at `p`.
pub fn read_be32(s: &[u8], p: usize) -> (n: usize)
    requires
        p + 4 <= s@.len(),
    ensures
        n == be32_at(s@, p as int),
{
    s[p] as usize * 16777216 + s[p + 1] as usize * 65536 + s[p + 2] as usize * 256 + s[p
        + 3] as usize
}

/// Reads the big-endian 24-bit number at `p`.
pub fn read_be24(s: &[u8], p: usize) -> (n: usize)
    requires
        p + 3 <= s@.len(),
    ensures
        n == be24_at(s@, p as int),
{
    s[p] as usize * 65536 + s[p + 1] as usize * 256 + s[p + 2] as usize
}

/// Reads the little-endian 32-bit number at `p`.
pub fn read_le32(s: &[u8], p: usize) -> (n: usize)
    requires
        p + 4 <= s@.len(),
    ensures
        n == le32_at(s@, p as int),
{
    s[p] as usize + s[p + 1] as usize * 256 + s[p + 2] as usize * 65536 + s[p + 3] as usize
        * 16777216
}

/// Numbers are stored byte by byte: the highest byte first in the big-endian forms
/// and last in the little-endian one. The low 32 or 24 bits are kept.
pub proof fn law_numbers_are_stored(n: int)
    requires
        0 <= n,
    ensures
        ({
            let (b, t, l) = (be32(n), be24(n), le32(n));
            &&& b.len() == 4 && t.len() == 3 && l.len() == 4
            &&& b[0] * 16777216 + b[1] * 65536 + b[2] * 256 + b[3] == n % 4294967296
            &&& l[3] * 16777216 + l[2] * 65536 + l[1] * 256 + l[0] == n % 4294967296
            &&& t[0] * 65536 + t[1] * 256 + t[2] == n % 16777216
        }),
{
    lemma_be32_read(n);
    lemma_be24_read(n);
    lemma_le32_read(n);
}

/// Numbers are read the way they are stored.
pub proof fn law_numbers_are_read(s: Seq<u8>, p: int, a: u8, b: u8, c: u8, d: u8)
    requires
        0 <= p,
        p + 4 <= s.len(),
        s[p] == a,
        s[p + 1] == b,
        s[p + 2] == c,
        s[p + 3] == d,
    ensures
        be32_at(s, p) == ((a * 256 + b) * 256 + c) * 256 + d,
        be24_at(s, p) == (a * 256 + b) * 256 + c,
        le32_at(s, p) == ((d * 256 + c) * 256 + b) * 256 + a,
{
}

} // verus!
