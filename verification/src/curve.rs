//! Scalars and Ristretto points held as their 32-byte encodings, and the few
//! operations of `curve25519-dalek`, `sha2` and `rand_chacha` that the notes
//! and keys are built from.
use vstd::prelude::*;

use curve25519_dalek::ristretto::CompressedRistretto as DalekCompressed;
use curve25519_dalek::ristretto::RistrettoPoint as DalekPoint;
use curve25519_dalek::scalar::Scalar as DalekScalar;
use rand::RngCore;
use rand::SeedableRng;

verus! {

/// A scalar of the Ristretto group, held as its 32-byte little-endian encoding.
#[derive(Clone, Copy, PartialEq, Eq, Debug)]
pub struct Scalar(pub [u8; 32]);

/// A Ristretto point, held as its 32-byte compressed encoding.
#[derive(Clone, Copy, PartialEq, Eq, Debug)]
pub struct CompressedPoint(pub [u8; 32]);

impl Scalar {
    /// The scalar zero.
    pub fn zero() -> (s: Scalar)
        ensures
            s.0@ == Seq::new(32, |i: int| 0u8),
    {
        let s = Scalar([0u8; 32]);
        assert(s.0@ =~= Seq::new(32, |i: int| 0u8));
        s
    }
}

impl CompressedPoint {
    /// The all-zero encoding, which is the encoding of the identity point.
    pub fn identity() -> (p: CompressedPoint)
        ensures
            p.0@ == Seq::new(32, |i: int| 0u8),
    {
        let p = CompressedPoint([0u8; 32]);
        assert(p.0@ =~= Seq::new(32, |i: int| 0u8));
        p
    }
}

/// Whether `CompressedRistretto::decompress` accepts the encoding.
pub uninterp spec fn spec_is_point(p: Seq<u8>) -> bool;

/// The encoding of `s · G`, `G` the Ristretto base point.
pub uninterp spec fn spec_base_mul(s: Seq<u8>) -> Seq<u8>;

/// The encoding of `s · P`.
pub uninterp spec fn spec_point_mul(s: Seq<u8>, p: Seq<u8>) -> Seq<u8>;

/// The encoding of `P + Q`.
pub uninterp spec fn spec_point_add(p: Seq<u8>, q: Seq<u8>) -> Seq<u8>;

/// The scalar that SHA-512 of the bytes reduces to.
pub uninterp spec fn spec_hash_to_scalar(bytes: Seq<u8>) -> Seq<u8>;

/// SHA-256 of the bytes.
pub uninterp spec fn spec_sha256(bytes: Seq<u8>) -> Seq<u8>;

/// The first `len` bytes of the ChaCha20 stream keyed by `seed`.
pub uninterp spec fn spec_keystream(seed: Seq<u8>, len: nat) -> Seq<u8>;

/// Calls `CompressedRistretto::decompress` and tells whether it returned a point.
#[verifier::external_body]
pub(crate) fn is_valid_point(p: &CompressedPoint) -> (valid: bool)
    ensures
        valid == spec_is_point(p.0@),
{
    DalekCompressed(p.0).decompress().is_some()
}

/// `RistrettoPoint::mul_base` on the scalar reduced modulo the group order
/// (`Scalar::from_bytes_mod_order`), compressed. A compressed point always
/// decompresses again.
#[verifier::external_body]
pub(crate) fn base_mul(s: &Scalar) -> (p: CompressedPoint)
    ensures
        p.0@ == spec_base_mul(s.0@),
        spec_is_point(p.0@),
{
    CompressedPoint(DalekPoint::mul_base(&DalekScalar::from_bytes_mod_order(s.0)).compress().to_bytes())
}

/// Multiplication of a decompressed point by a reduced scalar
/// (`Scalar * RistrettoPoint`), compressed. The point must decompress,
/// otherwise the call would have nothing to multiply. When the point is
/// `t·G`, the product `s·(t·G)` is also `t·(s·G)`: both are `(s·t)·G` in the
/// prime-order Ristretto group, whose scalars are reduced the same way here
/// and in `base_mul`.
#[verifier::external_body]
pub(crate) fn point_mul(s: &Scalar, p: &CompressedPoint) -> (r: CompressedPoint)
    requires
        spec_is_point(p.0@),
    ensures
        r.0@ == spec_point_mul(s.0@, p.0@),
        spec_is_point(r.0@),
        forall|t: Seq<u8>|
            #![trigger spec_point_mul(t, spec_base_mul(s.0@))]
            p.0@ == spec_base_mul(t) ==> r.0@ == spec_point_mul(t, spec_base_mul(s.0@)),
{
    let point = DalekCompressed(p.0).decompress().unwrap();
    CompressedPoint((DalekScalar::from_bytes_mod_order(s.0) * point).compress().to_bytes())
}

/// Addition of two decompressed points (`RistrettoPoint + RistrettoPoint`),
/// compressed. Both encodings must decompress.
#[verifier::external_body]
pub(crate) fn point_add(p: &CompressedPoint, q: &CompressedPoint) -> (r: CompressedPoint)
    requires
        spec_is_point(p.0@),
        spec_is_point(q.0@),
    ensures
        r.0@ == spec_point_add(p.0@, q.0@),
        spec_is_point(r.0@),
{
    let a = DalekCompressed(p.0).decompress().unwrap();
    let b = DalekCompressed(q.0).decompress().unwrap();
    CompressedPoint((a + b).compress().to_bytes())
}

/// `Scalar::hash_from_bytes::<Sha512>`: SHA-512 of the input reduced modulo
/// the group order, as its canonical encoding.
#[verifier::external_body]
pub(crate) fn hash_to_scalar(bytes: &[u8]) -> (s: Scalar)
    ensures
        s.0@ == spec_hash_to_scalar(bytes@),
{
    Scalar(DalekScalar::hash_from_bytes::<sha2::Sha512>(bytes).to_bytes())
}

/// `Scalar::random` drawn from the operating system's generator (`OsRng`).
/// The value is chance; what holds of every outcome is that a `Scalar`'s
/// encoding never has the top bit of its last byte set (the type's first
/// invariant).
#[verifier::external_body]
pub(crate) fn random_scalar() -> (s: Scalar)
    ensures
        s.0@[31] < 128,
{
    Scalar(DalekScalar::random(&mut rand::rngs::OsRng).to_bytes())
}

/// `sha2::Sha256::digest` of the input.
#[verifier::external_body]
pub(crate) fn sha256(bytes: &[u8]) -> (h: [u8; 32])
    ensures
        h@ == spec_sha256(bytes@),
{
    <sha2::Sha256 as sha2::Digest>::digest(bytes).into()
}

/// `ChaCha20Rng::from_seed(seed)` followed by one `fill_bytes` call on a
/// buffer of `len` bytes: the first `len` bytes of that stream. `fill_bytes`
/// fills the whole buffer.
#[verifier::external_body]
pub(crate) fn keystream(seed: &[u8; 32], len: usize) -> (ks: Vec<u8>)
    ensures
        ks@ == spec_keystream(seed@, len as nat),
        ks@.len() == len,
{
    let mut buf = vec![0u8; len];
    rand_chacha::ChaCha20Rng::from_seed(*seed).fill_bytes(&mut buf);
    buf
}

/// `Rng::gen_range(0..bound)` on the thread-local generator: a value below
/// `bound`, by chance. The range must not be empty.
#[verifier::external_body]
pub(crate) fn random_below(bound: u64) -> (r: u64)
    requires
        bound > 0,
    ensures
        r < bound,
{
    rand::Rng::gen_range(&mut rand::thread_rng(), 0..bound)
}

} // verus!
