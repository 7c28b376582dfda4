//! Notes of either kind, and the inputs and outputs of a transaction.
use vstd::prelude::*;

use vstd::bytes::spec_u64_to_le_bytes;

use crate::curve::{sha256, spec_sha256, Scalar};
use crate::encoding::{push_bytes, push_u64};
use crate::keys::{PublicKey, SecretKey};
use crate::note::{spec_obfuscated_bytes, NoteType, ObfuscatedNote};
use crate::transparent::{spec_transparent_bytes, TransparentNote};

verus! {

/// A note of either kind.
#[derive(Clone, Debug)]
pub enum Note {
    Transparent(TransparentNote),
    Obfuscated(ObfuscatedNote),
}

/// The encoding of a note.
pub open spec fn spec_note_bytes(n: Note) -> Seq<u8> {
    match n {
        Note::Transparent(t) => spec_transparent_bytes(t),
        Note::Obfuscated(o) => spec_obfuscated_bytes(o),
    }
}

/// The hash of a note: SHA-256 of its encoding.
pub open spec fn spec_note_hash(n: Note) -> Seq<u8> {
    spec_sha256(spec_note_bytes(n))
}

impl Note {
    /// The placeholder note (a transparent note of value zero).
    pub fn default() -> (n: Note)
        ensures
            n matches Note::Transparent(t) && t.is_placeholder(),
    {
        Note::Transparent(TransparentNote::default())
    }

    /// The note's encoding.
    pub fn to_bytes(&self) -> (bytes: Vec<u8>)
        ensures
            bytes@ == spec_note_bytes(*self),
    {
        match self {
            Note::Transparent(t) => t.to_bytes(),
            Note::Obfuscated(o) => o.to_bytes(),
        }
    }

    /// The note's hash.
    pub fn hash(&self) -> (h: [u8; 32])
        ensures
            h@ == spec_note_hash(*self),
    {
        let bytes = self.to_bytes();
        sha256(bytes.as_slice())
    }

    /// Transparent or obfuscated.
    pub fn note(&self) -> (t: NoteType)
        ensures
            t == (match *self {
                Note::Transparent(_) => NoteType::Transparent,
                Note::Obfuscated(_) => NoteType::Obfuscated,
            }),
    {
        match self {
            Note::Transparent(_) => NoteType::Transparent,
            Note::Obfuscated(_) => NoteType::Obfuscated,
        }
    }
}

/// A note spent by a transaction, with the value and blinding factor it
/// opens to and the key that spends it.
#[derive(Clone, Debug)]
pub struct TransactionInput {
    note: Note,
    value: u64,
    blinding_factor: Scalar,
    sk: Option<SecretKey>,
}

/// A note created by a transaction, with the value and blinding factor it
/// opens to and the key it is addressed to.
#[derive(Debug)]
pub struct TransactionOutput {
    note: Note,
    value: u64,
    blinding_factor: Scalar,
    pk: Option<PublicKey>,
}

/// The encoding of an optional spending key: 0, or 1 and the two scalars.
pub open spec fn spec_secret_bytes(sk: Option<SecretKey>) -> Seq<u8> {
    match sk {
        None => seq![0u8],
        Some(k) => seq![1u8] + k.spec_a() + k.spec_b(),
    }
}

/// The encoding of an optional public key: 0, or 1 and the two points.
pub open spec fn spec_public_bytes(pk: Option<PublicKey>) -> Seq<u8> {
    match pk {
        None => seq![0u8],
        Some(k) => seq![1u8] + k.spec_a_p() + k.spec_b_p(),
    }
}

/// The key an output is addressed to, if any, holds two points.
pub open spec fn output_key_valid(o: TransactionOutput) -> bool {
    o.spec_pk() matches Some(z) ==> z.spec_valid()
}

/// The encoding of an input: the note, the value, the blinding factor, the key.
pub open spec fn spec_input_bytes(i: TransactionInput) -> Seq<u8> {
    spec_note_bytes(i.spec_note()) + spec_u64_to_le_bytes(i.spec_value()) + i.spec_blinding_factor()
        + spec_secret_bytes(i.spec_sk())
}

/// The encoding of an output: the note, the value, the blinding factor, the key.
pub open spec fn spec_output_bytes(o: TransactionOutput) -> Seq<u8> {
    spec_note_bytes(o.spec_note()) + spec_u64_to_le_bytes(o.spec_value()) + o.spec_blinding_factor()
        + spec_public_bytes(o.spec_pk())
}

/// The placeholder input: the placeholder note, value zero, blinding factor
/// zero, no key.
pub open spec fn is_placeholder_input(i: TransactionInput) -> bool {
    &&& i.spec_note() matches Note::Transparent(t) && t.is_placeholder()
    &&& i.spec_value() == 0
    &&& i.spec_blinding_factor() == Seq::new(32, |k: int| 0u8)
    &&& i.spec_sk() is None
}

/// The placeholder output: the placeholder note, value zero, blinding factor
/// zero, no key.
pub open spec fn is_placeholder_output(o: TransactionOutput) -> bool {
    &&& o.spec_note() matches Note::Transparent(t) && t.is_placeholder()
    &&& o.spec_value() == 0
    &&& o.spec_blinding_factor() == Seq::new(32, |k: int| 0u8)
    &&& o.spec_pk() is None
}

impl TransactionInput {
    /// The blinding factor is a 32-byte encoding.
    pub proof fn lemma_blinding_length(&self)
        ensures
            self.spec_blinding_factor().len() == 32,
    {
    }

    pub closed spec fn spec_sk(&self) -> Option<SecretKey> {
        self.sk
    }

    /// The input with the given parts.
    pub fn from_parts(note: Note, value: u64, blinding_factor: Scalar, sk: Option<SecretKey>) -> (i:
        TransactionInput)
        ensures
            i.spec_note() == note,
            i.spec_value() == value,
            i.spec_blinding_factor() == blinding_factor.0@,
            i.spec_sk() == sk,
    {
        TransactionInput { note, value, blinding_factor, sk }
    }

    /// The input's encoding.
    pub fn to_bytes(&self) -> (bytes: Vec<u8>)
        ensures
            bytes@ == spec_input_bytes(*self),
    {
        let mut out = self.note.to_bytes();
        push_u64(&mut out, self.value);
        push_bytes(&mut out, &self.blinding_factor.0);
        match &self.sk {
            None => out.push(0u8),
            Some(k) => {
                out.push(1u8);
                let (a, b) = k.scalars();
                push_bytes(&mut out, &a.0);
                push_bytes(&mut out, &b.0);
            },
        }
        assert(out@ =~= spec_input_bytes(*self));
        out
    }

    pub closed spec fn spec_note(&self) -> Note {
        self.note
    }

    pub closed spec fn spec_value(&self) -> u64 {
        self.value
    }

    pub closed spec fn spec_blinding_factor(&self) -> Seq<u8> {
        self.blinding_factor.0@
    }

    pub open spec fn spec_has_secret(&self) -> bool {
        self.spec_sk() is Some
    }

    /// The input with the given parts.
    pub fn new(note: Note, value: u64, blinding_factor: Scalar, sk: SecretKey) -> (i:
        TransactionInput)
        ensures
            i.spec_note() == note,
            i.spec_value() == value,
            i.spec_blinding_factor() == blinding_factor.0@,
            i.spec_has_secret(),
    {
        TransactionInput { note, value, blinding_factor, sk: Some(sk) }
    }

    /// The placeholder input: the placeholder note, value zero, blinding
    /// factor zero, no key.
    pub fn default() -> (i: TransactionInput)
        ensures
            i.spec_note() matches Note::Transparent(t) && t.is_placeholder(),
            i.spec_value() == 0,
            i.spec_blinding_factor() == Seq::new(32, |k: int| 0u8),
            !i.spec_has_secret(),
            is_placeholder_input(i),
    {
        TransactionInput {
            note: Note::default(),
            value: 0,
            blinding_factor: Scalar::zero(),
            sk: None,
        }
    }

    /// The value the input opens to.
    pub fn value(&self) -> (v: u64)
        ensures
            v == self.spec_value(),
    {
        self.value
    }

    /// The blinding factor the input opens to.
    pub fn blinding_factor(&self) -> (s: Scalar)
        ensures
            s.0@ == self.spec_blinding_factor(),
    {
        self.blinding_factor
    }

    /// The spent note.
    pub fn note(&self) -> (n: &Note)
        ensures
            *n == self.spec_note(),
    {
        &self.note
    }

    /// The hash of the spent note.
    pub fn hash(&self) -> (h: [u8; 32])
        ensures
            h@ == spec_note_hash(self.spec_note()),
    {
        self.note.hash()
    }

    /// Forgets the value, the blinding factor and the key; keeps the note.
    pub fn clear_sensitive_info(&mut self)
        ensures
            final(self).spec_note() == old(self).spec_note(),
            final(self).spec_value() == 0,
            final(self).spec_blinding_factor() == Seq::new(32, |k: int| 0u8),
            !final(self).spec_has_secret(),
    {
        self.value = 0;
        self.blinding_factor = Scalar::zero();
        self.sk = None;
    }
}

impl TransactionOutput {
    /// The blinding factor is a 32-byte encoding.
    pub proof fn lemma_blinding_length(&self)
        ensures
            self.spec_blinding_factor().len() == 32,
    {
    }

    #[verifier::type_invariant]
    spec fn keys_valid(self) -> bool {
        self.pk matches Some(k) ==> k.spec_valid()
    }

    /// The key the output is addressed to, when there is one, holds two points.
    pub fn key_is_valid(&self)
        ensures
            self.spec_pk() matches Some(k) ==> k.spec_valid(),
    {
        proof {
            use_type_invariant(self);
        }
    }

    /// The output with the given parts; `None` when the key does not hold two points.
    pub fn from_parts(note: Note, value: u64, blinding_factor: Scalar, pk: Option<PublicKey>) -> (o:
        TransactionOutput)
        ensures
            o.spec_note() == note,
            o.spec_value() == value,
            o.spec_blinding_factor() == blinding_factor.0@,
            o.spec_pk() == pk,
    {
        if let Some(k) = &pk {
            k.points_are_valid();
        }
        TransactionOutput { note, value, blinding_factor, pk }
    }

    /// The output's encoding.
    pub fn to_bytes(&self) -> (bytes: Vec<u8>)
        ensures
            bytes@ == spec_output_bytes(*self),
    {
        let mut out = self.note.to_bytes();
        push_u64(&mut out, self.value);
        push_bytes(&mut out, &self.blinding_factor.0);
        match &self.pk {
            None => out.push(0u8),
            Some(k) => {
                out.push(1u8);
                push_bytes(&mut out, &k.a_p().0);
                push_bytes(&mut out, &k.b_p().0);
            },
        }
        assert(out@ =~= spec_output_bytes(*self));
        out
    }

    pub closed spec fn spec_note(&self) -> Note {
        self.note
    }

    pub closed spec fn spec_value(&self) -> u64 {
        self.value
    }

    pub closed spec fn spec_blinding_factor(&self) -> Seq<u8> {
        self.blinding_factor.0@
    }

    pub closed spec fn spec_pk(&self) -> Option<PublicKey> {
        self.pk
    }

    /// The output with the given parts.
    pub fn new(note: Note, value: u64, blinding_factor: Scalar, pk: PublicKey) -> (o:
        TransactionOutput)
        ensures
            o.spec_note() == note,
            o.spec_value() == value,
            o.spec_blinding_factor() == blinding_factor.0@,
            o.spec_pk() == Some(pk),
    {
        pk.points_are_valid();
        TransactionOutput { note, value, blinding_factor, pk: Some(pk) }
    }

    /// The placeholder output: the placeholder note, value zero, blinding
    /// factor zero, no key.
    pub fn default() -> (o: TransactionOutput)
        ensures
            o.spec_note() matches Note::Transparent(t) && t.is_placeholder(),
            o.spec_value() == 0,
            o.spec_blinding_factor() == Seq::new(32, |k: int| 0u8),
            o.spec_pk() is None,
            is_placeholder_output(o),
    {
        TransactionOutput {
            note: Note::default(),
            value: 0,
            blinding_factor: Scalar::zero(),
            pk: None,
        }
    }

    /// The value the output opens to.
    pub fn value(&self) -> (v: u64)
        ensures
            v == self.spec_value(),
    {
        self.value
    }

    /// The blinding factor the output opens to.
    pub fn blinding_factor(&self) -> (s: Scalar)
        ensures
            s.0@ == self.spec_blinding_factor(),
    {
        self.blinding_factor
    }

    /// The created note.
    pub fn note(&self) -> (n: &Note)
        ensures
            *n == self.spec_note(),
    {
        &self.note
    }

    /// The key the output is addressed to, if any.
    pub fn pk(&self) -> (pk: Option<PublicKey>)
        ensures
            pk == self.spec_pk(),
    {
        self.pk
    }

    /// The hash of the created note.
    pub fn hash(&self) -> (h: [u8; 32])
        ensures
            h@ == spec_note_hash(self.spec_note()),
    {
        self.note.hash()
    }

    /// Forgets the value and the blinding factor; keeps the note and the key.
    pub fn clear_sensitive_info(&mut self)
        ensures
            final(self).spec_note() == old(self).spec_note(),
            final(self).spec_pk() == old(self).spec_pk(),
            final(self).spec_value() == 0,
            final(self).spec_blinding_factor() == Seq::new(32, |k: int| 0u8),
    {
        proof {
            use_type_invariant(&*self);
        }
        self.value = 0;
        self.blinding_factor = Scalar::zero();
    }
}

impl Clone for TransactionOutput {
    fn clone(&self) -> (o: TransactionOutput) {
        proof {
            use_type_invariant(self);
        }
        TransactionOutput {
            note: self.note.clone(),
            value: self.value,
            blinding_factor: self.blinding_factor,
            pk: self.pk,
        }
    }
}

impl TransparentNote {
    /// The input that spends this note with `sk`: it opens to the note's own
    /// value and blinding factor.
    pub fn to_transaction_input(self, sk: SecretKey) -> (i: TransactionInput)
        ensures
            i.spec_note() == Note::Transparent(self),
            i.spec_value() == self.spec_value(),
            i.spec_blinding_factor() == self.spec_blinding_factor(),
            i.spec_has_secret(),
    {
        let value = self.value();
        let blinding_factor = self.blinding_factor();
        TransactionInput::new(Note::Transparent(self), value, blinding_factor, sk)
    }

    /// The output that creates this note, opening to `value` and `blinding_factor`.
    pub fn to_transaction_output(self, value: u64, blinding_factor: Scalar, pk: PublicKey) -> (o:
        TransactionOutput)
        ensures
            o.spec_note() == Note::Transparent(self),
            o.spec_value() == value,
            o.spec_blinding_factor() == blinding_factor.0@,
            o.spec_pk() == Some(pk),
    {
        TransactionOutput::new(Note::Transparent(self), value, blinding_factor, pk)
    }
}

impl ObfuscatedNote {
    /// The output that creates this note, opening to `value` and `blinding_factor`.
    pub fn to_transaction_output(self, value: u64, blinding_factor: Scalar, pk: PublicKey) -> (o:
        TransactionOutput)
        ensures
            o.spec_note() == Note::Obfuscated(self),
            o.spec_value() == value,
            o.spec_blinding_factor() == blinding_factor.0@,
            o.spec_pk() == Some(pk),
    {
        TransactionOutput::new(Note::Obfuscated(self), value, blinding_factor, pk)
    }
}

} // verus!
