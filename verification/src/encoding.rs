//! Little-endian byte encodings that notes and transactions are written in.
use vstd::prelude::*;
use vstd::bytes::{spec_u64_to_le_bytes, u64_to_le_bytes};

use crate::curve::CompressedPoint;

verus! {

/// The concatenation of the encodings of a sequence of points.
pub open spec fn flatten_points(s: Seq<CompressedPoint>) -> Seq<u8> {
    Seq::new(32 * s.len(), |i: int| s[i / 32].0@[i % 32])
}

/// A length-prefixed byte string: the length as 8 little-endian bytes, then the bytes.
pub open spec fn spec_prefixed(b: Seq<u8>) -> Seq<u8> {
    spec_u64_to_le_bytes(b.len() as u64) + b
}

/// Appends `bytes` to `out`.
pub fn push_bytes(out: &mut Vec<u8>, bytes: &[u8])
    ensures
        final(out)@ == old(out)@ + bytes@,
{
    let ghost start = out@;
    let mut i: usize = 0;
    while i < bytes.len()
        invariant
            i <= bytes@.len(),
            out@ == start + bytes@.subrange(0, i as int),
        decreases bytes@.len() - i,
    {
        out.push(bytes[i]);
        i = i + 1;
        assert(out@ =~= start + bytes@.subrange(0, i as int));
    }
    assert(bytes@.subrange(0, i as int) =~= bytes@);
}

/// Appends the 8 little-endian bytes of `v` to `out`.
pub fn push_u64(out: &mut Vec<u8>, v: u64)
    ensures
        final(out)@ == old(out)@ + spec_u64_to_le_bytes(v),
{
    let b = u64_to_le_bytes(v);
    push_bytes(out, b.as_slice());
}

/// Appends the length of `bytes`, then `bytes`.
pub fn push_prefixed(out: &mut Vec<u8>, bytes: &[u8])
    ensures
        final(out)@ == old(out)@ + spec_prefixed(bytes@),
{
    let ghost start = out@;
    push_u64(out, bytes.len() as u64);
    push_bytes(out, bytes);
    assert(out@ =~= start + spec_prefixed(bytes@));
}

/// Appends the encodings of the points.
pub fn push_points(out: &mut Vec<u8>, points: &Vec<CompressedPoint>)
    ensures
        final(out)@ == old(out)@ + flatten_points(points@),
{
    let ghost start = out@;
    let mut k: usize = 0;
    while k < points.len()
        invariant
            k <= points@.len(),
            out@ == start + flatten_points(points@.subrange(0, k as int)),
        decreases points@.len() - k,
    {
        let ghost before = out@;
        push_bytes(out, &points[k].0);
        k = k + 1;
        proof {
            let f = flatten_points(points@.subrange(0, k as int));
            let g = flatten_points(points@.subrange(0, k - 1));
            assert forall|i: int| 0 <= i < f.len() implies #[trigger] f[i] == (g + points@[k
                - 1].0@)[i] by {
                if i < 32 * (k - 1) {
                    assert(i / 32 < k - 1) by (nonlinear_arith)
                        requires
                            0 <= i < 32 * (k - 1),
                    ;
                } else {
                    assert(i / 32 == k - 1 && i % 32 == i - 32 * (k - 1)) by (nonlinear_arith)
                        requires
                            32 * (k - 1) <= i < 32 * k,
                    ;
                }
            }
            assert(f =~= g + points@[k - 1].0@);
        }
        assert(out@ =~= start + flatten_points(points@.subrange(0, k as int)));
    }
    assert(points@.subrange(0, k as int) =~= points@);
}

/// The byte strings of a sequence of digests.
pub open spec fn digest_views(s: Seq<[u8; 32]>) -> Seq<Seq<u8>> {
    s.map_values(|d: [u8; 32]| d@)
}

/// Appends the digests one after another.
pub fn push_digests(out: &mut Vec<u8>, digests: &Vec<[u8; 32]>)
    ensures
        final(out)@ == old(out)@ + digest_views(digests@).flatten(),
{
    let ghost start = out@;
    let mut k: usize = 0;
    assert(digest_views(digests@).subrange(0, 0).flatten_alt() =~= Seq::<u8>::empty());
    while k < digests.len()
        invariant
            k <= digests@.len(),
            out@ == start + digest_views(digests@).subrange(0, k as int).flatten_alt(),
        decreases digests@.len() - k,
    {
        push_bytes(out, &digests[k]);
        k = k + 1;
        proof {
            let v = digest_views(digests@);
            assert(v.subrange(0, k as int).drop_last() =~= v.subrange(0, k - 1));
            assert(v.subrange(0, k as int).last() == digests@[k - 1]@);
        }
        assert(out@ =~= start + digest_views(digests@).subrange(0, k as int).flatten_alt());
    }
    proof {
        let v = digest_views(digests@);
        assert(v.subrange(0, k as int) =~= v);
        v.lemma_flatten_and_flatten_alt_are_equivalent();
    }
}

} // verus!
