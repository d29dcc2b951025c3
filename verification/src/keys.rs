//! Index keys: the byte-lexicographic order of keys, and the layout
//! `word bytes, 0, file index (4 bytes, big-endian), entry index (4 bytes, big-endian)`.
use vstd::prelude::*;
use crate::order::StrictOrder;

verus! {

// ----- Byte-lexicographic order -----

/// `a` comes strictly before `b` in byte-lexicographic order (a proper prefix comes first).
pub open spec fn bytes_lt(a: Seq<u8>, b: Seq<u8>) -> bool
    decreases a.len(),
{
    if a.len() == 0 {
        b.len() > 0
    } else if b.len() == 0 {
        false
    } else if a[0] != b[0] {
        a[0] < b[0]
    } else {
        bytes_lt(a.drop_first(), b.drop_first())
    }
}

pub proof fn lemma_bytes_lt_irreflexive(a: Seq<u8>)
    ensures
        !bytes_lt(a, a),
    decreases a.len(),
{
    if a.len() > 0 {
        lemma_bytes_lt_irreflexive(a.drop_first());
    }
}

pub proof fn lemma_bytes_lt_transitive(a: Seq<u8>, b: Seq<u8>, c: Seq<u8>)
    requires
        bytes_lt(a, b),
        bytes_lt(b, c),
    ensures
        bytes_lt(a, c),
    decreases a.len(),
{
    if a.len() > 0 && b.len() > 0 && c.len() > 0 && a[0] == b[0] && b[0] == c[0] {
        lemma_bytes_lt_transitive(a.drop_first(), b.drop_first(), c.drop_first());
    }
}

pub proof fn lemma_bytes_lt_total(a: Seq<u8>, b: Seq<u8>)
    ensures
        bytes_lt(a, b) || bytes_lt(b, a) || a == b,
    decreases a.len(),
{
    if a.len() > 0 && b.len() > 0 && a[0] == b[0] {
        lemma_bytes_lt_total(a.drop_first(), b.drop_first());
        if a.drop_first() == b.drop_first() {
            assert(a =~= seq![a[0]] + a.drop_first());
            assert(b =~= seq![b[0]] + b.drop_first());
        }
    } else if a.len() == 0 && b.len() == 0 {
        assert(a =~= b);
    }
}

/// Compares two byte strings in byte-lexicographic order.
pub fn bytes_less(a: &[u8], b: &[u8]) -> (r: bool)
    ensures
        r == bytes_lt(a@, b@),
{
    let mut i: usize = 0;
    assert(a@.skip(0) =~= a@);
    assert(b@.skip(0) =~= b@);
    while i < a.len() && i < b.len() && a[i] == b[i]
        invariant
            i <= a@.len(),
            i <= b@.len(),
            bytes_lt(a@, b@) == bytes_lt(a@.skip(i as int), b@.skip(i as int)),
        decreases a@.len() - i,
    {
        proof {
            assert(a@.skip(i as int).drop_first() =~= a@.skip(i + 1));
            assert(b@.skip(i as int).drop_first() =~= b@.skip(i + 1));
        }
        i = i + 1;
    }
    if i == a.len() {
        i < b.len()
    } else if i == b.len() {
        false
    } else {
        a[i] < b[i]
    }
}

impl StrictOrder for Vec<u8> {
    open spec fn precedes(a: Seq<u8>, b: Seq<u8>) -> bool {
        bytes_lt(a, b)
    }

    proof fn lemma_irreflexive(a: Seq<u8>) {
        lemma_bytes_lt_irreflexive(a);
    }

    proof fn lemma_transitive(a: Seq<u8>, b: Seq<u8>, c: Seq<u8>) {
        lemma_bytes_lt_transitive(a, b, c);
    }

    proof fn lemma_total(a: Seq<u8>, b: Seq<u8>) {
        lemma_bytes_lt_total(a, b);
    }

    fn precedes_exec(&self, other: &Self) -> (r: bool) {
        bytes_less(self.as_slice(), other.as_slice())
    }
}

/// A proper extension of `p` comes after `p`.
pub proof fn lemma_prefix_lt(p: Seq<u8>, k: Seq<u8>)
    requires
        p.len() < k.len(),
        k.subrange(0, p.len() as int) == p,
    ensures
        bytes_lt(p, k),
    decreases p.len(),
{
    if p.len() > 0 {
        assert(k.drop_first().subrange(0, p.drop_first().len() as int) =~= p.drop_first());
        assert(k[0] == p[0]);
        lemma_prefix_lt(p.drop_first(), k.drop_first());
    }
}

/// Whether `p` is a prefix of `k`.
pub open spec fn has_prefix(k: Seq<u8>, p: Seq<u8>) -> bool {
    p.len() <= k.len() && k.subrange(0, p.len() as int) == p
}

/// The byte strings starting with `p + [0]` are exactly those in the
/// half-open range `[p + [0], p + [1])`.
pub proof fn lemma_prefix_range(p: Seq<u8>, k: Seq<u8>)
    ensures
        has_prefix(k, p.push(0u8)) <==> (!bytes_lt(k, p.push(0u8)) && bytes_lt(k, p.push(1u8))),
    decreases p.len(),
{
    let lo = p.push(0u8);
    let hi = p.push(1u8);
    if k.len() == 0 {
        assert(bytes_lt(k, lo));
    } else if p.len() == 0 {
        assert(lo =~= seq![0u8]);
        assert(hi =~= seq![1u8]);
        assert(lo.drop_first() =~= Seq::<u8>::empty());
        assert(hi.drop_first() =~= Seq::<u8>::empty());
        assert(!bytes_lt(k.drop_first(), lo.drop_first()));
        assert(!bytes_lt(k.drop_first(), hi.drop_first()));
        if k[0] == 0 {
            assert(k.subrange(0, 1) =~= lo);
            assert(!bytes_lt(k, lo));
            assert(bytes_lt(k, hi));
        } else {
            assert(!has_prefix(k, lo)) by {
                if has_prefix(k, lo) {
                    assert(k.subrange(0, 1)[0] == lo[0]);
                }
            }
        }
    } else {
        let lo2 = p.drop_first().push(0u8);
        let hi2 = p.drop_first().push(1u8);
        assert(lo.drop_first() =~= lo2);
        assert(hi.drop_first() =~= hi2);
        assert(lo[0] == p[0] && hi[0] == p[0]);
        if k[0] != p[0] {
            assert(!has_prefix(k, lo)) by {
                if has_prefix(k, lo) {
                    assert(k.subrange(0, lo.len() as int)[0] == lo[0]);
                }
            }
        } else {
            lemma_prefix_range(p.drop_first(), k.drop_first());
            assert(bytes_lt(k, lo) == bytes_lt(k.drop_first(), lo2));
            assert(bytes_lt(k, hi) == bytes_lt(k.drop_first(), hi2));
            if has_prefix(k.drop_first(), lo2) {
                assert(k.subrange(0, lo.len() as int) =~= seq![k[0]] + k.drop_first().subrange(
                    0,
                    lo2.len() as int,
                ));
                assert(seq![p[0]] + lo2 =~= lo);
            }
            if has_prefix(k, lo) {
                assert(k.drop_first().subrange(0, lo2.len() as int) =~= k.subrange(
                    0,
                    lo.len() as int,
                ).drop_first());
            }
        }
    }
}

// ----- Big-endian integers -----

/// The four bytes of `x`, most significant first.
pub open spec fn be_bytes(x: u32) -> Seq<u8> {
    seq![(x >> 24u32) as u8, ((x >> 16u32) & 0xffu32) as u8, ((x >> 8u32) & 0xffu32) as u8, (x & 0xffu32) as u8]
}

/// The number whose big-endian bytes are `b0 b1 b2 b3`.
pub open spec fn be_value(b0: u8, b1: u8, b2: u8, b3: u8) -> u32 {
    ((b0 as u32) << 24u32) | ((b1 as u32) << 16u32) | ((b2 as u32) << 8u32) | (b3 as u32)
}

/// Reading back the big-endian bytes of a number gives the number.
pub proof fn lemma_be_roundtrip(x: u32)
    ensures
        be_value(be_bytes(x)[0], be_bytes(x)[1], be_bytes(x)[2], be_bytes(x)[3]) == x,
{
    let b0 = (x >> 24u32) as u8;
    let b1 = ((x >> 16u32) & 0xffu32) as u8;
    let b2 = ((x >> 8u32) & 0xffu32) as u8;
    let b3 = (x & 0xffu32) as u8;
    assert(((b0 as u32) << 24u32) | ((b1 as u32) << 16u32) | ((b2 as u32) << 8u32) | (b3 as u32)
        == x) by (bit_vector)
        requires
            b0 == (x >> 24u32) as u8,
            b1 == ((x >> 16u32) & 0xffu32) as u8,
            b2 == ((x >> 8u32) & 0xffu32) as u8,
            b3 == (x & 0xffu32) as u8,
    ;
}

/// Appends the big-endian bytes of `x` (as `u32::to_be_bytes` lays them out).
pub fn push_be_u32(out: &mut Vec<u8>, x: u32)
    ensures
        final(out)@ == old(out)@ + be_bytes(x),
{
    out.push((x >> 24u32) as u8);
    out.push(((x >> 16u32) & 0xffu32) as u8);
    out.push(((x >> 8u32) & 0xffu32) as u8);
    out.push((x & 0xffu32) as u8);
    assert(out@ =~= old(out)@ + be_bytes(x));
}

/// Reads a big-endian number from four bytes (as `u32::from_be_bytes` does).
pub fn read_be_u32(b0: u8, b1: u8, b2: u8, b3: u8) -> (r: u32)
    ensures
        r == be_value(b0, b1, b2, b3),
{
    ((b0 as u32) << 24u32) | ((b1 as u32) << 16u32) | ((b2 as u32) << 8u32) | (b3 as u32)
}

// ----- Keys -----

/// The key that records that the word with UTF-8 bytes `word` occurs in entry
/// `entry_idx` of file `file_idx`.
pub open spec fn index_key(word: Seq<u8>, file_idx: u32, entry_idx: u32) -> Seq<u8> {
    word.push(0u8) + be_bytes(file_idx) + be_bytes(entry_idx)
}

/// The file and entry numbers a key names, read from the eight bytes after
/// the prefix of length `plen`.
pub open spec fn key_payload(k: Seq<u8>, plen: int) -> (u32, u32) {
    (
        be_value(k[plen], k[plen + 1], k[plen + 2], k[plen + 3]),
        be_value(k[plen + 4], k[plen + 5], k[plen + 6], k[plen + 7]),
    )
}

/// Builds the key for a word occurrence.
pub fn make_key(word: &[u8], file_idx: u32, entry_idx: u32) -> (k: Vec<u8>)
    ensures
        k@ == index_key(word@, file_idx, entry_idx),
{
    let mut k: Vec<u8> = Vec::new();
    let mut i: usize = 0;
    while i < word.len()
        invariant
            i <= word@.len(),
            k@ == word@.subrange(0, i as int),
        decreases word@.len() - i,
    {
        k.push(word[i]);
        i = i + 1;
        assert(k@ =~= word@.subrange(0, i as int));
    }
    assert(k@ =~= word@);
    k.push(0u8);
    push_be_u32(&mut k, file_idx);
    push_be_u32(&mut k, entry_idx);
    k
}

/// A key built from a word, read back, names the file and entry it was built from.
pub proof fn lemma_key_roundtrip(word: Seq<u8>, file_idx: u32, entry_idx: u32)
    ensures
        has_prefix(index_key(word, file_idx, entry_idx), word.push(0u8)),
        index_key(word, file_idx, entry_idx).len() == word.len() + 9,
        key_payload(index_key(word, file_idx, entry_idx), word.len() as int + 1) == (file_idx, entry_idx),
{
    let k = index_key(word, file_idx, entry_idx);
    let p: int = word.len() as int + 1;
    assert(k.subrange(0, p) =~= word.push(0u8));
    lemma_be_roundtrip(file_idx);
    lemma_be_roundtrip(entry_idx);
    assert(k[p] == be_bytes(file_idx)[0]);
    assert(k[p + 1] == be_bytes(file_idx)[1]);
    assert(k[p + 2] == be_bytes(file_idx)[2]);
    assert(k[p + 3] == be_bytes(file_idx)[3]);
    assert(k[p + 4] == be_bytes(entry_idx)[0]);
    assert(k[p + 5] == be_bytes(entry_idx)[1]);
    assert(k[p + 6] == be_bytes(entry_idx)[2]);
    assert(k[p + 7] == be_bytes(entry_idx)[3]);
}

} // verus!
