//! Transparent notes: the value and its blinding factor travel in clear.
use vstd::prelude::*;
use vstd::bytes::spec_u64_to_le_bytes;

use crate::curve::{base_mul, random_scalar, spec_base_mul, spec_point_mul, CompressedPoint, Scalar};
use crate::encoding::{push_bytes, push_u64};
use crate::keys::{spec_stealth, PublicKey};
use crate::note::{spec_utxo_byte, utxo_byte, NoteType, NoteUtxoType, PhoenixIdx};

verus! {

/// A note whose value is public.
#[derive(Clone, Copy, Debug)]
pub struct TransparentNote {
    utxo: NoteUtxoType,
    value: u64,
    blinding_factor: Scalar,
    r_p: CompressedPoint,
    pk_r: CompressedPoint,
    idx: PhoenixIdx,
}

/// The encoding of a transparent note: the tag 0, the utxo byte, the
/// position, `R`, `pk_r`, the value and the blinding factor.
pub open spec fn spec_transparent_bytes(n: TransparentNote) -> Seq<u8> {
    seq![0u8, spec_utxo_byte(n.spec_utxo())] + spec_u64_to_le_bytes(n.spec_idx().pos) + n.spec_r_p()
        + n.spec_pk_r() + spec_u64_to_le_bytes(n.spec_value()) + n.spec_blinding_factor()
}

impl TransparentNote {
    pub closed spec fn spec_utxo(&self) -> NoteUtxoType {
        self.utxo
    }

    pub closed spec fn spec_value(&self) -> u64 {
        self.value
    }

    pub open spec fn spec_blinding_factor(&self) -> Seq<u8> {
        self.blinding_factor_array()@
    }

    pub open spec fn spec_r_p(&self) -> Seq<u8> {
        self.r_p_array()@
    }

    pub open spec fn spec_pk_r(&self) -> Seq<u8> {
        self.pk_r_array()@
    }

    pub closed spec fn spec_idx(&self) -> PhoenixIdx {
        self.idx
    }

    /// The placeholder note: an output of value zero, blinding factor zero,
    /// both points the identity, at position zero.
    pub open spec fn is_placeholder(&self) -> bool {
        &&& self.spec_utxo() == NoteUtxoType::Output
        &&& self.spec_value() == 0
        &&& self.spec_blinding_factor() == Seq::new(32, |i: int| 0u8)
        &&& self.spec_r_p() == Seq::new(32, |i: int| 0u8)
        &&& self.spec_pk_r() == Seq::new(32, |i: int| 0u8)
        &&& self.spec_idx().pos == 0
    }

    pub closed spec fn r_p_array(&self) -> [u8; 32] {
        self.r_p.0
    }

    pub closed spec fn pk_r_array(&self) -> [u8; 32] {
        self.pk_r.0
    }

    pub closed spec fn blinding_factor_array(&self) -> [u8; 32] {
        self.blinding_factor.0
    }

    /// Notes with the same parts are the same note.
    pub proof fn lemma_eq_by_parts(self, other: TransparentNote)
        requires
            self.spec_utxo() == other.spec_utxo(),
            self.spec_value() == other.spec_value(),
            self.spec_blinding_factor() == other.spec_blinding_factor(),
            self.spec_r_p() == other.spec_r_p(),
            self.spec_pk_r() == other.spec_pk_r(),
            self.spec_idx() == other.spec_idx(),
        ensures
            self == other,
    {
        assert(self.r_p.0 =~= other.r_p.0);
        assert(self.pk_r.0 =~= other.pk_r.0);
        assert(self.blinding_factor.0 =~= other.blinding_factor.0);
    }

    /// A note with the given parts.
    pub fn new(
        utxo: NoteUtxoType,
        value: u64,
        blinding_factor: Scalar,
        r_p: CompressedPoint,
        pk_r: CompressedPoint,
        idx: PhoenixIdx,
    ) -> (note: TransparentNote)
        ensures
            note.spec_utxo() == utxo,
            note.spec_value() == value,
            note.spec_blinding_factor() == blinding_factor.0@,
            note.spec_r_p() == r_p.0@,
            note.spec_pk_r() == pk_r.0@,
            note.spec_idx() == idx,
    {
        TransparentNote { utxo, value, blinding_factor, r_p, pk_r, idx }
    }

    /// The placeholder note.
    pub fn default() -> (note: TransparentNote)
        ensures
            note.is_placeholder(),
    {
        TransparentNote {
            utxo: NoteUtxoType::Output,
            value: 0,
            blinding_factor: Scalar::zero(),
            r_p: CompressedPoint::identity(),
            pk_r: CompressedPoint::identity(),
            idx: PhoenixIdx::default(),
        }
    }

    /// A new output note of `value` to `pk`, with its blinding factor: a random
    /// `r` gives `R = r·G` and the stealth point `H(r·A)·G + B`.
    pub fn output(pk: &PublicKey, value: u64) -> (res: (TransparentNote, Scalar))
        ensures
            res.0.spec_utxo() == NoteUtxoType::Output,
            res.0.spec_value() == value,
            res.0.spec_blinding_factor() == res.1.0@,
            res.0.spec_idx().pos == 0,
            exists|r: Seq<u8>|
                res.0.spec_r_p() == spec_base_mul(r) && res.0.spec_pk_r() == spec_stealth(
                    spec_point_mul(r, pk.spec_a_p()),
                    pk.spec_b_p(),
                ),
    {
        let r = random_scalar();
        let r_p = base_mul(&r);
        let pk_r = pk.pk_r(&r);
        let blinding_factor = random_scalar();
        let note = TransparentNote {
            utxo: NoteUtxoType::Output,
            value,
            blinding_factor,
            r_p,
            pk_r,
            idx: PhoenixIdx::default(),
        };
        (note, blinding_factor)
    }

    /// The note's encoding.
    pub fn to_bytes(&self) -> (bytes: Vec<u8>)
        ensures
            bytes@ == spec_transparent_bytes(*self),
    {
        let mut out: Vec<u8> = Vec::new();
        out.push(0u8);
        out.push(utxo_byte(self.utxo));
        push_u64(&mut out, self.idx.pos);
        push_bytes(&mut out, &self.r_p.0);
        push_bytes(&mut out, &self.pk_r.0);
        push_u64(&mut out, self.value);
        push_bytes(&mut out, &self.blinding_factor.0);
        assert(out@ =~= spec_transparent_bytes(*self));
        out
    }

    /// Spent or created.
    pub fn utxo(&self) -> (u: NoteUtxoType)
        ensures
            u == self.spec_utxo(),
    {
        self.utxo
    }

    /// Always `NoteType::Transparent`.
    pub fn note(&self) -> (t: NoteType)
        ensures
            t == NoteType::Transparent,
    {
        NoteType::Transparent
    }

    /// The note's value.
    pub fn value(&self) -> (v: u64)
        ensures
            v == self.spec_value(),
    {
        self.value
    }

    /// The note's blinding factor.
    pub fn blinding_factor(&self) -> (s: Scalar)
        ensures
            s.0@ == self.spec_blinding_factor(),
    {
        self.blinding_factor
    }

    /// The note's position.
    pub fn idx(&self) -> (idx: &PhoenixIdx)
        ensures
            *idx == self.spec_idx(),
    {
        &self.idx
    }

    /// The same note at position `idx`.
    pub fn set_idx(self, idx: PhoenixIdx) -> (note: TransparentNote)
        ensures
            note.spec_idx() == idx,
            note.spec_utxo() == self.spec_utxo(),
            note.spec_value() == self.spec_value(),
            note.spec_blinding_factor() == self.spec_blinding_factor(),
            note.spec_r_p() == self.spec_r_p(),
            note.spec_pk_r() == self.spec_pk_r(),
    {
        let mut note = self;
        note.idx = idx;
        note
    }
}

} // verus!
