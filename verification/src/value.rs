//! Hidden values: Pedersen commitments to a value under several blinding
//! factors, and a bulletproofs R1CS proof of knowledge of their openings.
use vstd::prelude::*;

use bulletproofs::r1cs::{Prover, R1CSError, R1CSProof, Verifier};
use bulletproofs::{BulletproofGens, PedersenGens};
use curve25519_dalek_ng::ristretto::CompressedRistretto as DalekCompressed;
use curve25519_dalek_ng::scalar::Scalar as DalekScalar;
use merlin::Transcript;

use crate::curve::{random_scalar, CompressedPoint, Scalar};
use crate::error::Error;
use crate::note::PhoenixIdx;

verus! {

/// The Pedersen commitment `v·B + b·B_blinding` with bulletproofs' default
/// generators, compressed.
pub uninterp spec fn spec_pedersen_commit(value: Seq<u8>, blinding: Seq<u8>) -> Seq<u8>;

/// Whether `proof` is a valid proof for the commitments with bulletproofs'
/// verifier over a fresh transcript labelled `label`, with
/// `BulletproofGens::new(gens_capacity, party_capacity)` and the default
/// Pedersen generators: the bytes parse as a proof, no point the transcript
/// refuses is the identity, and both of the verifier's equations hold. This
/// does not depend on the scalar the verifier draws to batch its equations.
pub uninterp spec fn spec_proof_valid(
    label: Seq<char>,
    gens_capacity: usize,
    party_capacity: usize,
    commitments: Seq<Seq<u8>>,
    proof: Seq<u8>,
) -> bool;

/// The label of the transcripts that values are proven in.
pub open spec fn cs_label() -> Seq<char> {
    "phoenix-value"@
}

/// The number of generators, and of parties, the proofs are made with.
pub const CS_GENS_CAPACITY: usize = 16;

pub const CS_PARTY_CAPACITY: usize = 1;

/// Whether `proof` is a valid proof for the commitments, with the library's
/// transcript label and generators.
pub open spec fn spec_openings_valid(commitments: Seq<Seq<u8>>, proof: Seq<u8>) -> bool {
    spec_proof_valid(cs_label(), CS_GENS_CAPACITY, CS_PARTY_CAPACITY, commitments, proof)
}

/// The transcript label and the generator capacities of the constraint
/// systems that values are proven in.
pub fn cs_parameters() -> (params: (&'static str, usize, usize))
    ensures
        params.0@ == cs_label(),
        params.1 == CS_GENS_CAPACITY,
        params.2 == CS_PARTY_CAPACITY,
{
    ("phoenix-value", CS_GENS_CAPACITY, CS_PARTY_CAPACITY)
}

/// Whether `R1CSProof::from_bytes` accepts the bytes.
pub uninterp spec fn spec_proof_parses(bytes: Seq<u8>) -> bool;

/// The encodings of a sequence of points.
pub open spec fn point_views(s: Seq<CompressedPoint>) -> Seq<Seq<u8>> {
    s.map_values(|p: CompressedPoint| p.0@)
}

/// The encoding of a value as a scalar: its 8 little-endian bytes, then zeros.
pub open spec fn spec_value_scalar(v: u64) -> Seq<u8> {
    vstd::bytes::spec_u64_to_le_bytes(v) + Seq::new(24, |i: int| 0u8)
}

/// `PedersenGens::default().commit(value, blinding)`, compressed; both
/// scalars are first reduced modulo the group order.
#[verifier::external_body]
pub(crate) fn pedersen_commit(value: &Scalar, blinding: &Scalar) -> (c: CompressedPoint)
    ensures
        c.0@ == spec_pedersen_commit(value.0@, blinding.0@),
{
    let v = DalekScalar::from_bytes_mod_order(value.0);
    let b = DalekScalar::from_bytes_mod_order(blinding.0);
    CompressedPoint(PedersenGens::default().commit(v, b).compress().to_bytes())
}

/// The commitments of a sequence of openings `(value, blinding)`.
pub open spec fn opening_commitments(openings: Seq<(Scalar, Scalar)>) -> Seq<Seq<u8>> {
    openings.map_values(|o: (Scalar, Scalar)| spec_pedersen_commit(o.0.0@, o.1.0@))
}

/// A bulletproofs `Prover` over a fresh transcript labelled `label`, with
/// the default Pedersen generators, commits to each opening
/// `(value, blinding)` in turn and proves with
/// `BulletproofGens::new(gens_capacity, party_capacity)`; the proof's bytes.
/// No constraint is added, so the prover's only errors (too few generators
/// for the padded circuit of one multiplier slot) cannot occur once both
/// capacities are at least one: the result is `Ok`, and `R1CSProof::to_bytes`
/// writes what `R1CSProof::from_bytes` reads back. The proof is randomised
/// (the prover draws its blindings from `thread_rng`), and whether it is
/// valid depends on those draws, so neither its bytes nor its validity is
/// stated.
#[verifier::external_body]
pub(crate) fn prove_openings(
    label: &'static str,
    gens_capacity: usize,
    party_capacity: usize,
    openings: &Vec<(Scalar, Scalar)>,
) -> (r: Result<Vec<u8>, R1CSError>)
    requires
        gens_capacity >= 1,
        party_capacity >= 1,
    ensures
        r is Ok,
        r matches Ok(p) ==> spec_proof_parses(p@),
{
    let (pc_gens, bp_gens) = (PedersenGens::default(), BulletproofGens::new(gens_capacity, party_capacity));
    let mut transcript = Transcript::new(label.as_bytes());
    let mut prover = Prover::new(&pc_gens, &mut transcript);
    for (v, b) in openings.iter() {
        prover.commit(DalekScalar::from_bytes_mod_order(v.0), DalekScalar::from_bytes_mod_order(b.0));
    }
    prover.prove(&bp_gens).map(|p| p.to_bytes())
}

/// A bulletproofs `Verifier` over a fresh transcript labelled `label`
/// commits to each commitment in turn and verifies the proof parsed from
/// `proof` (`R1CSProof::from_bytes`) with the default Pedersen generators and
/// `BulletproofGens::new(gens_capacity, party_capacity)`. The verifier
/// batches its two equations with a scalar it draws from `thread_rng`, so its
/// answer is stated only where it does not depend on that draw: bytes that do
/// not parse are refused, and a valid proof is accepted.
#[verifier::external_body]
pub(crate) fn verify_openings(
    label: &'static str,
    gens_capacity: usize,
    party_capacity: usize,
    commitments: &Vec<CompressedPoint>,
    proof: &[u8],
) -> (r: Result<(), R1CSError>)
    requires
        gens_capacity >= 1,
        party_capacity >= 1,
    ensures
        !spec_proof_parses(proof@) ==> r is Err,
        spec_proof_valid(label@, gens_capacity, party_capacity, point_views(commitments@), proof@)
            ==> r is Ok,
{
    let (pc_gens, bp_gens) = (PedersenGens::default(), BulletproofGens::new(gens_capacity, party_capacity));
    let mut transcript = Transcript::new(label.as_bytes());
    let mut verifier = Verifier::new(&mut transcript);
    for c in commitments.iter() {
        verifier.commit(DalekCompressed(c.0));
    }
    verifier.verify(&R1CSProof::from_bytes(proof)?, &pc_gens, &bp_gens)
}

/// `R1CSProof::from_bytes`: `Ok` exactly when the bytes parse as a proof,
/// the parser's error otherwise. A valid proof parses, whatever it is valid
/// for.
#[verifier::external_body]
pub(crate) fn parse_proof(bytes: &[u8]) -> (r: Result<(), R1CSError>)
    ensures
        r is Ok <==> spec_proof_parses(bytes@),
        forall|label: Seq<char>, g: usize, q: usize, c: Seq<Seq<u8>>|
            #![trigger spec_proof_valid(label, g, q, c, bytes@)]
            spec_proof_valid(label, g, q, c, bytes@) ==> r is Ok,
{
    R1CSProof::from_bytes(bytes).map(|_| ())
}

/// The scalar encoding of a value.
pub fn value_scalar(v: u64) -> (s: Scalar)
    ensures
        s.0@ == spec_value_scalar(v),
        s.0@.len() == 32,
        vstd::bytes::spec_u64_from_le_bytes(s.0@.subrange(0, 8)) == v,
        forall|i: int| 8 <= i < 32 ==> #[trigger] s.0@[i] == 0u8,
{
    let le = vstd::bytes::u64_to_le_bytes(v);
    let mut bytes = [0u8; 32];
    let mut i: usize = 0;
    while i < 8
        invariant
            i <= 8,
            le@ == vstd::bytes::spec_u64_to_le_bytes(v),
            le@.len() == 8,
            forall|j: int| 0 <= j < i ==> #[trigger] bytes@[j] == le@[j],
            forall|j: int| 8 <= j < 32 ==> #[trigger] bytes@[j] == 0u8,
        decreases 8 - i,
    {
        bytes[i] = le[i];
        i = i + 1;
    }
    let s = Scalar(bytes);
    assert(s.0@ =~= spec_value_scalar(v));
    proof {
        lemma_value_scalar_is_the_value(v);
    }
    s
}

/// The scalar a value is committed as is that value: its first 8 bytes
/// read back, little-endian, as the value, and its other 24 bytes are zero.
pub proof fn lemma_value_scalar_is_the_value(v: u64)
    ensures
        spec_value_scalar(v).len() == 32,
        vstd::bytes::spec_u64_from_le_bytes(spec_value_scalar(v).subrange(0, 8)) == v,
        forall|i: int| 8 <= i < 32 ==> #[trigger] spec_value_scalar(v)[i] == 0u8,
{
    vstd::bytes::lemma_auto_spec_u64_to_from_le_bytes();
    assert(spec_value_scalar(v).subrange(0, 8) =~= vstd::bytes::spec_u64_to_le_bytes(v));
}

/// A value hidden behind Pedersen commitments, with the blinding factors
/// that open them when they are known.
#[derive(Clone, Debug)]
pub struct PhoenixValue {
    commitments: Vec<CompressedPoint>,
    blinding_factors: Vec<Scalar>,
}

impl PhoenixValue {
    pub closed spec fn spec_commitments(&self) -> Seq<CompressedPoint> {
        self.commitments@
    }

    /// Each commitment is that of `value` under the blinding factor at the
    /// same place.
    pub open spec fn opens_to(&self, value: u64) -> bool {
        point_views(self.spec_commitments()) == self.spec_blinding_factors().map_values(
            |b: Scalar| spec_pedersen_commit(spec_value_scalar(value), b.0@),
        )
    }

    pub closed spec fn spec_blinding_factors(&self) -> Seq<Scalar> {
        self.blinding_factors@
    }

    /// The value committed under one random blinding factor.
    pub fn new(idx: PhoenixIdx, value: u64) -> (pv: PhoenixValue)
        ensures
            pv.spec_blinding_factors().len() == 1,
            pv.spec_commitments().len() == 1,
            pv.spec_commitments()[0].0@ == spec_pedersen_commit(
                spec_value_scalar(value),
                pv.spec_blinding_factors()[0].0@,
            ),
            pv.opens_to(value),
            pv.spec_blinding_factors()[0].0@[31] < 128,
    {
        let mut bfs: Vec<Scalar> = Vec::new();
        bfs.push(random_scalar());
        PhoenixValue::with_blinding_factors(idx, value, bfs)
    }

    /// The value committed under each of the blinding factors, in order.
    pub fn with_blinding_factors(_idx: PhoenixIdx, value: u64, blinding_factors: Vec<Scalar>) -> (pv:
        PhoenixValue)
        ensures
            pv.spec_blinding_factors() == blinding_factors@,
            pv.spec_commitments().len() == blinding_factors@.len(),
            forall|i: int|
                0 <= i < blinding_factors@.len() ==> (#[trigger] pv.spec_commitments()[i]).0@
                    == spec_pedersen_commit(spec_value_scalar(value), blinding_factors@[i].0@),
            pv.opens_to(value),
    {
        let v = value_scalar(value);
        let mut commitments: Vec<CompressedPoint> = Vec::new();
        let mut i: usize = 0;
        while i < blinding_factors.len()
            invariant
                i <= blinding_factors@.len(),
                v.0@ == spec_value_scalar(value),
                commitments@.len() == i,
                forall|j: int|
                    0 <= j < i ==> (#[trigger] commitments@[j]).0@ == spec_pedersen_commit(
                        spec_value_scalar(value),
                        blinding_factors@[j].0@,
                    ),
            decreases blinding_factors@.len() - i,
        {
            commitments.push(pedersen_commit(&v, &blinding_factors[i]));
            i = i + 1;
        }
        assert(point_views(commitments@) =~= blinding_factors@.map_values(
            |b: Scalar| spec_pedersen_commit(spec_value_scalar(value), b.0@),
        ));
        PhoenixValue::with_commitments_and_blinding_factors(commitments, blinding_factors)
    }

    /// Commitments alone, with no blinding factor: enough to verify, not to prove.
    pub fn with_commitments(commitments: Vec<CompressedPoint>) -> (pv: PhoenixValue)
        ensures
            pv.spec_commitments() == commitments@,
            pv.spec_blinding_factors().len() == 0,
    {
        PhoenixValue::with_commitments_and_blinding_factors(commitments, Vec::new())
    }

    /// The given commitments and blinding factors.
    pub fn with_commitments_and_blinding_factors(
        commitments: Vec<CompressedPoint>,
        blinding_factors: Vec<Scalar>,
    ) -> (pv: PhoenixValue)
        ensures
            pv.spec_commitments() == commitments@,
            pv.spec_blinding_factors() == blinding_factors@,
    {
        PhoenixValue { commitments, blinding_factors }
    }

    /// The openings `(value, b)` for each blinding factor `b`, in order.
    /// When the commitments are those of `value` under the blinding factors,
    /// the openings' commitments are exactly the commitments.
    pub fn value_openings(&self, value: u64) -> (o: Vec<(Scalar, Scalar)>)
        ensures
            o@.len() == self.spec_blinding_factors().len(),
            forall|j: int|
                0 <= j < o@.len() ==> (#[trigger] o@[j]).0.0@ == spec_value_scalar(value) && o@[j].1
                    == self.spec_blinding_factors()[j],
            self.opens_to(value) ==> opening_commitments(o@) == point_views(self.spec_commitments()),
    {
        let v = value_scalar(value);
        let mut openings: Vec<(Scalar, Scalar)> = Vec::new();
        let mut i: usize = 0;
        while i < self.blinding_factors.len()
            invariant
                i <= self.blinding_factors@.len(),
                v.0@ == spec_value_scalar(value),
                openings@.len() == i,
                forall|j: int|
                    0 <= j < i ==> (#[trigger] openings@[j]).0.0@ == spec_value_scalar(value)
                        && openings@[j].1 == self.blinding_factors@[j],
            decreases self.blinding_factors@.len() - i,
        {
            openings.push((v, self.blinding_factors[i]));
            i = i + 1;
        }
        proof {
            if self.opens_to(value) {
                assert(opening_commitments(openings@) =~= point_views(self.spec_commitments()));
            }
        }
        openings
    }

    /// A proof of knowledge of the openings `(value, b)` for each blinding
    /// factor `b`; it is always made, and its bytes parse as a proof.
    pub fn prove(&self, value: u64) -> (r: Result<Vec<u8>, Error>)
        ensures
            r is Ok,
            r matches Ok(p) ==> spec_proof_parses(p@),
    {
        let openings = self.value_openings(value);
        let (label, gens, parties) = cs_parameters();
        match prove_openings(label, gens, parties, &openings) {
            Ok(p) => Ok(p),
            Err(e) => Err(Error::from(e)),
        }
    }

    /// Checks a proof against the commitments: `Ok` when the verifier
    /// accepts it, the verifier's error as `Error::R1CS` otherwise. Bytes
    /// that do not parse are refused; a valid proof is accepted.
    pub fn verify(&self, proof: &[u8]) -> (r: Result<(), Error>)
        ensures
            !spec_proof_parses(proof@) ==> r is Err,
            spec_openings_valid(point_views(self.spec_commitments()), proof@) ==> r is Ok,
            r matches Err(e) ==> e is R1CS,
    {
        let (label, gens, parties) = cs_parameters();
        match verify_openings(label, gens, parties, &self.commitments, proof) {
            Ok(()) => Ok(()),
            Err(e) => Err(Error::from(e)),
        }
    }

    /// The commitments.
    pub fn commitments(&self) -> (c: &Vec<CompressedPoint>)
        ensures
            c@ == self.spec_commitments(),
    {
        &self.commitments
    }

    /// The blinding factors.
    pub fn blinding_factors(&self) -> (b: &Vec<Scalar>)
        ensures
            b@ == self.spec_blinding_factors(),
    {
        &self.blinding_factors
    }
}

} // verus!
