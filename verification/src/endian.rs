//! Big-endian encoding of 32-bit values, the integer layout of the DOL
//! header, together with the facts the codec needs about it.

use vstd::prelude::*;

verus! {

/// The four big-endian bytes of a 32-bit value, most significant byte first.
pub open spec fn be32_bytes(x: u32) -> Seq<u8> {
    seq![
        ((x >> 24) & 0xff) as u8,
        ((x >> 16) & 0xff) as u8,
        ((x >> 8) & 0xff) as u8,
        (x & 0xff) as u8,
    ]
}

/// The 32-bit value stored big-endian at position `k` of `b`.
pub open spec fn be32_at(b: Seq<u8>, k: int) -> u32
    recommends
        0 <= k,
        k + 4 <= b.len(),
{
    ((b[k] as u32) << 24) | ((b[k + 1] as u32) << 16) | ((b[k + 2] as u32) << 8) | (b[k + 3] as u32)
}

/// The big-endian bytes of a whole sequence of 32-bit values, in order.
pub open spec fn be32_seq_bytes(s: Seq<u32>) -> Seq<u8>
    decreases s.len(),
{
    if s.len() == 0 {
        Seq::empty()
    } else {
        be32_seq_bytes(s.drop_last()) + be32_bytes(s.last())
    }
}

/// `n` zero bytes.
pub open spec fn zero_bytes(n: nat) -> Seq<u8> {
    Seq::new(n, |i: int| 0u8)
}

/// Reads the 32-bit big-endian value at position `k` of `b`.
pub fn read_be32(b: &[u8], k: usize) -> (x: u32)
    requires
        k + 4 <= b@.len(),
    ensures
        x == be32_at(b@, k as int),
{
    ((b[k] as u32) << 24) | ((b[k + 1] as u32) << 16) | ((b[k + 2] as u32) << 8) | (b[k + 3] as u32)
}

/// Appends the four big-endian bytes of `x` to `sink`.
pub fn write_be32(sink: &mut Vec<u8>, x: u32)
    ensures
        final(sink)@ == old(sink)@ + be32_bytes(x),
{
    sink.push(((x >> 24) & 0xff) as u8);
    sink.push(((x >> 16) & 0xff) as u8);
    sink.push(((x >> 8) & 0xff) as u8);
    sink.push((x & 0xff) as u8);
    proof {
        assert(sink@ =~= old(sink)@ + be32_bytes(x));
    }
}

/// Decoding the big-endian bytes of `x` gives `x` back.
pub proof fn lemma_be32_roundtrip(x: u32)
    ensures
        be32_at(be32_bytes(x), 0) == x,
{
    assert((((((x >> 24) & 0xff) as u8) as u32) << 24) | (((((x >> 16) & 0xff) as u8) as u32)
        << 16) | (((((x >> 8) & 0xff) as u8) as u32) << 8) | (((x & 0xff) as u8) as u32) == x)
        by (bit_vector);
}

/// Re-encoding the value read at position `k` reproduces exactly the four
/// bytes it was read from.
pub proof fn lemma_be32_bytes_of_at(b: Seq<u8>, k: int)
    requires
        0 <= k,
        k + 4 <= b.len(),
    ensures
        be32_bytes(be32_at(b, k)) == b.subrange(k, k + 4),
{
    let b0 = b[k];
    let b1 = b[k + 1];
    let b2 = b[k + 2];
    let b3 = b[k + 3];
    let x = be32_at(b, k);
    assert(((x >> 24) & 0xff) as u8 == b0 && ((x >> 16) & 0xff) as u8 == b1 && ((x >> 8)
        & 0xff) as u8 == b2 && (x & 0xff) as u8 == b3) by (bit_vector)
        requires
            x == ((b0 as u32) << 24) | ((b1 as u32) << 16) | ((b2 as u32) << 8) | (b3 as u32),
    ;
    assert(be32_bytes(x) =~= b.subrange(k, k + 4));
}

/// The value read at position `k` depends on the four bytes there alone.
pub proof fn lemma_be32_at_eq(b1: Seq<u8>, k1: int, b2: Seq<u8>, k2: int)
    requires
        0 <= k1,
        k1 + 4 <= b1.len(),
        0 <= k2,
        k2 + 4 <= b2.len(),
        b1.subrange(k1, k1 + 4) == b2.subrange(k2, k2 + 4),
    ensures
        be32_at(b1, k1) == be32_at(b2, k2),
{
    let s1 = b1.subrange(k1, k1 + 4);
    let s2 = b2.subrange(k2, k2 + 4);
    assert(s1[0] == b1[k1] && s1[1] == b1[k1 + 1] && s1[2] == b1[k1 + 2] && s1[3] == b1[k1 + 3]);
    assert(s2[0] == b2[k2] && s2[1] == b2[k2 + 1] && s2[2] == b2[k2 + 2] && s2[3] == b2[k2 + 3]);
}

/// Length of the encoding of a sequence of 32-bit values.
pub proof fn lemma_be32_seq_bytes_len(s: Seq<u32>)
    ensures
        be32_seq_bytes(s).len() == 4 * s.len(),
    decreases s.len(),
{
    if s.len() > 0 {
        lemma_be32_seq_bytes_len(s.drop_last());
    }
}

/// The encoding of element `i` sits at byte offset `4 * i` of the encoding of
/// the sequence.
pub proof fn lemma_be32_seq_bytes_slice(s: Seq<u32>, i: int)
    requires
        0 <= i < s.len(),
    ensures
        be32_seq_bytes(s).subrange(4 * i, 4 * i + 4) == be32_bytes(s[i]),
    decreases s.len(),
{
    lemma_be32_seq_bytes_len(s);
    lemma_be32_seq_bytes_len(s.drop_last());
    if i == s.len() - 1 {
        assert(be32_seq_bytes(s).subrange(4 * i, 4 * i + 4) =~= be32_bytes(s.last()));
    } else {
        lemma_be32_seq_bytes_slice(s.drop_last(), i);
        assert(be32_seq_bytes(s).subrange(4 * i, 4 * i + 4) =~= be32_seq_bytes(
            s.drop_last(),
        ).subrange(4 * i, 4 * i + 4));
    }
}

/// Re-encoding the 32-bit values read at positions `base`, `base + 4`, ...
/// reproduces exactly the bytes they were read from.
pub proof fn lemma_be32_seq_bytes_of_ats(b: Seq<u8>, base: int, n: nat)
    requires
        0 <= base,
        base + 4 * n <= b.len(),
    ensures
        be32_seq_bytes(Seq::new(n, |i: int| be32_at(b, base + 4 * i))) == b.subrange(
            base,
            base + 4 * n,
        ),
    decreases n,
{
    let s = Seq::new(n, |i: int| be32_at(b, base + 4 * i));
    lemma_be32_seq_bytes_len(s);
    if n == 0 {
        assert(be32_seq_bytes(s) =~= b.subrange(base, base));
    } else {
        let s0 = Seq::new((n - 1) as nat, |i: int| be32_at(b, base + 4 * i));
        assert(s.drop_last() =~= s0);
        lemma_be32_seq_bytes_of_ats(b, base, (n - 1) as nat);
        lemma_be32_seq_bytes_len(s0);
        lemma_be32_bytes_of_at(b, base + 4 * (n - 1));
        assert(be32_seq_bytes(s) =~= b.subrange(base, base + 4 * n));
    }
}

} // verus!
