//! Secret, view and public keys, and the one-time stealth point `pk_r` that a
//! note is addressed to.
//!
//! A public key is the pair `(A, B) = (a·G, b·G)`. A sender picks a random
//! `r`, publishes `R = r·G` and addresses the note to `H(r·A)·G + B`; the
//! holder of the view key `(a, B)` recomputes the same point as
//! `H(a·R)·G + B`.
use vstd::prelude::*;

use crate::curve::{
    base_mul, hash_to_scalar, is_valid_point, point_add, point_mul, random_scalar, spec_base_mul,
    spec_hash_to_scalar, spec_is_point, spec_point_add, spec_point_mul, CompressedPoint, Scalar,
};

verus! {

/// The stealth point `H(shared)·G + B` for a shared point and the key's `B`.
pub open spec fn spec_stealth(shared: Seq<u8>, b_p: Seq<u8>) -> Seq<u8> {
    spec_point_add(spec_base_mul(spec_hash_to_scalar(shared)), b_p)
}

/// A secret key `(a, b)`.
#[derive(Clone, Copy, Debug)]
pub struct SecretKey {
    a: Scalar,
    b: Scalar,
}

/// A view key `(a, B)`: enough to recognise and open notes, not to spend them.
#[derive(Clone, Copy, PartialEq, Eq, Debug)]
pub struct ViewKey {
    a: Scalar,
    b_p: CompressedPoint,
}

/// A public key `(A, B)`.
#[derive(Clone, Copy, PartialEq, Eq, Debug)]
pub struct PublicKey {
    a_p: CompressedPoint,
    b_p: CompressedPoint,
}

impl SecretKey {
    pub closed spec fn spec_a(&self) -> Seq<u8> {
        self.a.0@
    }

    pub closed spec fn spec_b(&self) -> Seq<u8> {
        self.b.0@
    }

    /// The two scalars are 32-byte encodings.
    pub proof fn lemma_scalar_lengths(&self)
        ensures
            self.spec_a().len() == 32,
            self.spec_b().len() == 32,
    {
    }

    /// The two scalars.
    pub fn scalars(&self) -> (s: (Scalar, Scalar))
        ensures
            s.0.0@ == self.spec_a(),
            s.1.0@ == self.spec_b(),
    {
        (self.a, self.b)
    }

    /// The secret key with the given scalars.
    pub fn new(a: Scalar, b: Scalar) -> (sk: SecretKey)
        ensures
            sk.spec_a() == a.0@,
            sk.spec_b() == b.0@,
    {
        SecretKey { a, b }
    }

    /// A fresh secret key from two random scalars (each with the top bit of
    /// its encoding clear).
    pub fn default() -> (sk: SecretKey)
        ensures
            sk.spec_a()[31] < 128,
            sk.spec_b()[31] < 128,
    {
        SecretKey { a: random_scalar(), b: random_scalar() }
    }

    /// The public key `(a·G, b·G)`.
    pub fn public_key(&self) -> (pk: PublicKey)
        ensures
            pk.spec_a_p() == spec_base_mul(self.spec_a()),
            pk.spec_b_p() == spec_base_mul(self.spec_b()),
    {
        PublicKey { a_p: base_mul(&self.a), b_p: base_mul(&self.b) }
    }

    /// The view key `(a, b·G)`.
    pub fn view_key(&self) -> (vk: ViewKey)
        ensures
            vk.spec_a() == self.spec_a(),
            vk.spec_b_p() == spec_base_mul(self.spec_b()),
    {
        ViewKey { a: self.a, b_p: base_mul(&self.b) }
    }
}

impl ViewKey {
    #[verifier::type_invariant]
    spec fn wf(self) -> bool {
        spec_is_point(self.b_p.0@)
    }

    pub closed spec fn spec_a(&self) -> Seq<u8> {
        self.a.0@
    }

    pub closed spec fn spec_b_p(&self) -> Seq<u8> {
        self.b_p.0@
    }

    /// The stealth point `H(a·R)·G + B` of a note published with `R = r_p`.
    /// When `R = r·G`, it is the point `H(r·A)·G + B` that a sender with the
    /// random `r` addressed to the public key `(A, B) = (a·G, B)`.
    pub fn pk_r(&self, r_p: &CompressedPoint) -> (p: CompressedPoint)
        requires
            spec_is_point(r_p.0@),
        ensures
            p.0@ == spec_stealth(spec_point_mul(self.spec_a(), r_p.0@), self.spec_b_p()),
            spec_is_point(p.0@),
            forall|r: Seq<u8>|
                #![trigger spec_point_mul(r, spec_base_mul(self.spec_a()))]
                r_p.0@ == spec_base_mul(r) ==> p.0@ == spec_stealth(
                    spec_point_mul(r, spec_base_mul(self.spec_a())),
                    self.spec_b_p(),
                ),
    {
        proof {
            use_type_invariant(self);
        }
        let shared = point_mul(&self.a, r_p);
        let h = hash_to_scalar(&shared.0);
        let hg = base_mul(&h);
        point_add(&hg, &self.b_p)
    }
}

impl PublicKey {
    #[verifier::type_invariant]
    spec fn wf(self) -> bool {
        spec_is_point(self.a_p.0@) && spec_is_point(self.b_p.0@)
    }

    pub closed spec fn spec_a_p(&self) -> Seq<u8> {
        self.a_p.0@
    }

    /// The two points are 32-byte encodings.
    pub proof fn lemma_point_lengths(&self)
        ensures
            self.spec_a_p().len() == 32,
            self.spec_b_p().len() == 32,
    {
    }

    /// Both encodings decompress to points.
    pub open spec fn spec_valid(&self) -> bool {
        spec_is_point(self.spec_a_p()) && spec_is_point(self.spec_b_p())
    }

    /// Every public key holds two points.
    pub fn points_are_valid(&self)
        ensures
            self.spec_valid(),
    {
        proof {
            use_type_invariant(self);
        }
    }

    pub closed spec fn spec_b_p(&self) -> Seq<u8> {
        self.b_p.0@
    }

    /// The public key with the given encodings, if both decompress to points.
    pub fn from_points(a_p: CompressedPoint, b_p: CompressedPoint) -> (pk: Option<PublicKey>)
        ensures
            pk is Some <==> spec_is_point(a_p.0@) && spec_is_point(b_p.0@),
            pk matches Some(k) ==> k.spec_a_p() == a_p.0@ && k.spec_b_p() == b_p.0@,
    {
        if is_valid_point(&a_p) && is_valid_point(&b_p) {
            Some(PublicKey { a_p, b_p })
        } else {
            None
        }
    }

    /// The encoding of `A`.
    pub fn a_p(&self) -> (p: CompressedPoint)
        ensures
            p.0@ == self.spec_a_p(),
    {
        self.a_p
    }

    /// The encoding of `B`.
    pub fn b_p(&self) -> (p: CompressedPoint)
        ensures
            p.0@ == self.spec_b_p(),
    {
        self.b_p
    }

    /// The stealth point `H(r·A)·G + B` that a note sent with the random `r`
    /// is addressed to.
    pub fn pk_r(&self, r: &Scalar) -> (p: CompressedPoint)
        ensures
            p.0@ == spec_stealth(spec_point_mul(r.0@, self.spec_a_p()), self.spec_b_p()),
            spec_is_point(p.0@),
    {
        proof {
            use_type_invariant(self);
        }
        let shared = point_mul(r, &self.a_p);
        let h = hash_to_scalar(&shared.0);
        let hg = base_mul(&h);
        point_add(&hg, &self.b_p)
    }
}

} // verus!
