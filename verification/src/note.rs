//! Notes: the unit of value that transactions spend and create.
use vstd::prelude::*;
use vstd::bytes::{spec_u64_from_le_bytes, spec_u64_to_le_bytes, u64_from_le_bytes, u64_to_le_bytes};

use crate::crypto::{decrypt, encrypt, spec_decrypt, spec_encrypt};
use crate::encoding::{flatten_points, push_bytes, push_points, push_prefixed, push_u64, spec_prefixed};
use crate::curve::{
    base_mul, is_valid_point, random_scalar, spec_base_mul, spec_is_point, spec_point_mul,
    CompressedPoint, Scalar,
};
use crate::error::Error;
use crate::item::{Note, TransactionInput};
use crate::keys::SecretKey;
use crate::keys::{spec_stealth, PublicKey, ViewKey};
use crate::value::{
    point_views, spec_openings_valid, spec_pedersen_commit, spec_proof_parses, spec_value_scalar,
    PhoenixValue,
};

verus! {

/// Whether a note shows its value or hides it.
#[derive(Clone, Copy, PartialEq, Eq, Debug)]
pub enum NoteType {
    Transparent,
    Obfuscated,
}

/// Whether a note is spent by a transaction or created by it.
#[derive(Clone, Copy, PartialEq, Eq, Debug)]
pub enum NoteUtxoType {
    Input,
    Output,
}

/// The position of a note in the note tree.
#[derive(Clone, Copy, PartialEq, Eq, Debug)]
pub struct PhoenixIdx {
    pub pos: u64,
}

impl PhoenixIdx {
    /// The position zero, that of a note not yet stored.
    pub fn default() -> (idx: PhoenixIdx)
        ensures
            idx.pos == 0,
    {
        PhoenixIdx { pos: 0 }
    }
}

/// The byte that encodes a note's utxo type.
pub open spec fn spec_utxo_byte(u: NoteUtxoType) -> u8 {
    match u {
        NoteUtxoType::Input => 0u8,
        NoteUtxoType::Output => 1u8,
    }
}

/// The byte that encodes a note's utxo type.
pub fn utxo_byte(u: NoteUtxoType) -> (b: u8)
    ensures
        b == spec_utxo_byte(u),
{
    match u {
        NoteUtxoType::Input => 0u8,
        NoteUtxoType::Output => 1u8,
    }
}

/// The concatenation of the encodings of a sequence of scalars.
pub open spec fn flatten_scalars(s: Seq<Scalar>) -> Seq<u8> {
    Seq::new(32 * s.len(), |i: int| s[i / 32].0@[i % 32])
}

/// What `Scalar::from_bits` keeps of 32 bytes: all but the top bit.
pub open spec fn spec_scalar_from_bits(bytes: Seq<u8>) -> Seq<u8> {
    bytes.update(31, bytes[31] & 0x7f)
}

/// Cuts `bytes` into 32-byte chunks and keeps each as a scalar, top bit cleared.
pub open spec fn chunk_scalars(bytes: Seq<u8>) -> Seq<Seq<u8>> {
    Seq::new(bytes.len() / 32, |k: int| spec_scalar_from_bits(bytes.subrange(32 * k, 32 * k + 32)))
}

/// The key that the view key `(a, B)` derives for a note published with `r_p`.
pub open spec fn spec_key_for(a: Seq<u8>, b_p: Seq<u8>, r_p: Seq<u8>) -> Seq<u8> {
    spec_stealth(spec_point_mul(a, r_p), b_p)
}

/// The key a view key derives for a note published with `r_p`.
pub open spec fn spec_note_key(vk: ViewKey, r_p: Seq<u8>) -> Seq<u8> {
    spec_key_for(vk.spec_a(), vk.spec_b_p(), r_p)
}

/// The note was sent to the public key `(A, B) = (a_p, b_p)`: it was
/// published with `R = r·G` for some `r`, and addressed to `H(r·A)·G + B`.
pub open spec fn sent_to(note: ObfuscatedNote, a_p: Seq<u8>, b_p: Seq<u8>) -> bool {
    &&& spec_is_point(note.spec_r_p())
    &&& exists|r: Seq<u8>|
        note.spec_r_p() == spec_base_mul(r) && note.spec_pk_r() == spec_stealth(
            spec_point_mul(r, a_p),
            b_p,
        )
}

/// The note's commitments are those of the value it holds encrypted under
/// `key`, under each of the blinding factors it holds encrypted under `key`.
pub open spec fn opens_under(note: ObfuscatedNote, key: Seq<u8>) -> bool {
    point_views(note.spec_commitments()) == chunk_scalars(
        spec_decrypt(key, note.spec_encrypted_blinding_factors()),
    ).map_values(
        |b: Seq<u8>|
            spec_pedersen_commit(
                spec_value_scalar(spec_u64_from_le_bytes(spec_decrypt(key, note.spec_encrypted_value()))),
                b,
            ),
    )
}

/// A note whose value and blinding factors travel encrypted to the stealth
/// point `pk_r`; only Pedersen commitments to the value are public.
#[derive(Clone, Debug)]
pub struct ObfuscatedNote {
    utxo: NoteUtxoType,
    commitments: Vec<CompressedPoint>,
    r_p: CompressedPoint,
    pk_r: CompressedPoint,
    idx: PhoenixIdx,
    encrypted_value: Vec<u8>,
    encrypted_blinding_factors: Vec<u8>,
}

/// A copy of a list of points.
pub fn copy_points(points: &Vec<CompressedPoint>) -> (c: Vec<CompressedPoint>)
    ensures
        c@ == points@,
{
    let mut out: Vec<CompressedPoint> = Vec::new();
    let mut i: usize = 0;
    while i < points.len()
        invariant
            i <= points@.len(),
            out@ == points@.subrange(0, i as int),
        decreases points@.len() - i,
    {
        out.push(points[i]);
        i = i + 1;
        assert(out@ =~= points@.subrange(0, i as int));
    }
    assert(points@.subrange(0, i as int) =~= points@);
    out
}

/// The encoding of an obfuscated note: the tag 1, the utxo byte, the
/// position, `R`, `pk_r`, the number of commitments and the commitments, then
/// the two ciphertexts, each prefixed with its length.
pub open spec fn spec_obfuscated_bytes(n: ObfuscatedNote) -> Seq<u8> {
    seq![1u8, spec_utxo_byte(n.spec_utxo())] + spec_u64_to_le_bytes(n.spec_idx().pos) + n.spec_r_p()
        + n.spec_pk_r() + spec_u64_to_le_bytes(n.spec_commitments().len() as u64) + flatten_points(
        n.spec_commitments(),
    ) + spec_prefixed(n.spec_encrypted_value()) + spec_prefixed(n.spec_encrypted_blinding_factors())
}

impl ObfuscatedNote {
    /// A random `r`, the point `R = r·G` published with a note, and the
    /// stealth point `H(r·A)·G + B` the note is addressed to.
    pub fn generate_pk_r(pk: &PublicKey) -> (res: (Scalar, CompressedPoint, CompressedPoint))
        ensures
            res.1.0@ == spec_base_mul(res.0.0@),
            res.2.0@ == spec_stealth(spec_point_mul(res.0.0@, pk.spec_a_p()), pk.spec_b_p()),
            spec_is_point(res.1.0@),
            spec_is_point(res.2.0@),
    {
        let r = random_scalar();
        let r_p = base_mul(&r);
        let pk_r = pk.pk_r(&r);
        (r, r_p, pk_r)
    }

    /// The note's encoding.
    pub fn to_bytes(&self) -> (bytes: Vec<u8>)
        ensures
            bytes@ == spec_obfuscated_bytes(*self),
    {
        let mut out: Vec<u8> = Vec::new();
        out.push(1u8);
        out.push(utxo_byte(self.utxo));
        push_u64(&mut out, self.idx.pos);
        push_bytes(&mut out, &self.r_p.0);
        push_bytes(&mut out, &self.pk_r.0);
        push_u64(&mut out, self.commitments.len() as u64);
        push_points(&mut out, &self.commitments);
        push_prefixed(&mut out, self.encrypted_value.as_slice());
        push_prefixed(&mut out, self.encrypted_blinding_factors.as_slice());
        assert(out@ =~= spec_obfuscated_bytes(*self));
        out
    }

    pub closed spec fn spec_utxo(&self) -> NoteUtxoType {
        self.utxo
    }

    /// The two points are 32-byte encodings.
    pub proof fn lemma_point_lengths(&self)
        ensures
            self.spec_r_p().len() == 32,
            self.spec_pk_r().len() == 32,
    {
    }

    pub closed spec fn spec_commitments(&self) -> Seq<CompressedPoint> {
        self.commitments@
    }

    pub closed spec fn spec_r_p(&self) -> Seq<u8> {
        self.r_p.0@
    }

    pub closed spec fn spec_pk_r(&self) -> Seq<u8> {
        self.pk_r.0@
    }

    pub closed spec fn spec_idx(&self) -> PhoenixIdx {
        self.idx
    }

    pub closed spec fn spec_encrypted_value(&self) -> Seq<u8> {
        self.encrypted_value@
    }

    pub closed spec fn spec_encrypted_blinding_factors(&self) -> Seq<u8> {
        self.encrypted_blinding_factors@
    }

    /// A note with the given parts.
    pub fn new(
        utxo: NoteUtxoType,
        commitments: Vec<CompressedPoint>,
        r_p: CompressedPoint,
        pk_r: CompressedPoint,
        idx: PhoenixIdx,
        encrypted_value: Vec<u8>,
        encrypted_blinding_factors: Vec<u8>,
    ) -> (note: ObfuscatedNote)
        ensures
            note.spec_utxo() == utxo,
            note.spec_commitments() == commitments@,
            note.spec_r_p() == r_p.0@,
            note.spec_pk_r() == pk_r.0@,
            note.spec_idx() == idx,
            note.spec_encrypted_value() == encrypted_value@,
            note.spec_encrypted_blinding_factors() == encrypted_blinding_factors@,
    {
        ObfuscatedNote {
            utxo,
            commitments,
            r_p,
            pk_r,
            idx,
            encrypted_value,
            encrypted_blinding_factors,
        }
    }

    /// The value's little-endian bytes, encrypted under `pk_r`.
    pub fn encrypt_value(pk_r: &CompressedPoint, value: u64) -> (ct: Vec<u8>)
        ensures
            ct@ == spec_encrypt(pk_r.0@, spec_u64_to_le_bytes(value)),
            ct@.len() == 8,
    {
        let bytes = u64_to_le_bytes(value);
        encrypt(pk_r, bytes.as_slice())
    }

    /// The key that `vk` derives from `r_p` is the stealth point the note is
    /// addressed to, when the note was sent to `vk`'s public key.
    proof fn lemma_owner_key(&self, vk: ViewKey, key: Seq<u8>)
        requires
            key == spec_note_key(vk, self.spec_r_p()),
            forall|r: Seq<u8>|
                #![trigger spec_point_mul(r, spec_base_mul(vk.spec_a()))]
                self.spec_r_p() == spec_base_mul(r) ==> key == spec_stealth(
                    spec_point_mul(r, spec_base_mul(vk.spec_a())),
                    vk.spec_b_p(),
                ),
        ensures
            sent_to(*self, spec_base_mul(vk.spec_a()), vk.spec_b_p()) ==> key == self.spec_pk_r(),
    {
        if sent_to(*self, spec_base_mul(vk.spec_a()), vk.spec_b_p()) {
            let r = choose|r: Seq<u8>|
                self.spec_r_p() == spec_base_mul(r) && self.spec_pk_r() == spec_stealth(
                    spec_point_mul(r, spec_base_mul(vk.spec_a())),
                    vk.spec_b_p(),
                );
            assert(key == spec_stealth(spec_point_mul(r, spec_base_mul(vk.spec_a())), vk.spec_b_p()));
        }
    }

    /// The value, decrypted with the key that `vk` derives from `r_p`; `None`
    /// when `r_p` is not the encoding of a point. The encrypted value must be
    /// exactly 8 bytes long.
    pub fn decrypt_value(&self, vk: &ViewKey) -> (value: Option<u64>)
        requires
            self.spec_encrypted_value().len() == 8,
        ensures
            value is Some <==> spec_is_point(self.spec_r_p()),
            value matches Some(v) ==> v == spec_u64_from_le_bytes(
                spec_decrypt(spec_note_key(*vk, self.spec_r_p()), self.spec_encrypted_value()),
            ),
            sent_to(*self, spec_base_mul(vk.spec_a()), vk.spec_b_p()) ==> value == Some(
                spec_u64_from_le_bytes(spec_decrypt(self.spec_pk_r(), self.spec_encrypted_value())),
            ),
    {
        if !is_valid_point(&self.r_p) {
            return None;
        }
        let key = vk.pk_r(&self.r_p);
        proof {
            self.lemma_owner_key(*vk, key.0@);
        }
        let bytes = decrypt(&key, self.encrypted_value.as_slice());
        Some(u64_from_le_bytes(bytes.as_slice()))
    }

    /// The blinding factors' encodings, concatenated and encrypted under `pk_r`.
    pub fn encrypt_blinding_factors(pk_r: &CompressedPoint, blinding_factors: &[Scalar]) -> (ct:
        Vec<u8>)
        requires
            32 * blinding_factors@.len() <= usize::MAX,
        ensures
            ct@ == spec_encrypt(pk_r.0@, flatten_scalars(blinding_factors@)),
    {
        let mut bytes: Vec<u8> = Vec::new();
        let mut k: usize = 0;
        while k < blinding_factors.len()
            invariant
                k <= blinding_factors@.len(),
                32 * blinding_factors@.len() <= usize::MAX,
                bytes@ == flatten_scalars(blinding_factors@.subrange(0, k as int)),
            decreases blinding_factors@.len() - k,
        {
            let s = blinding_factors[k].0;
            let mut j: usize = 0;
            while j < 32
                invariant
                    j <= 32,
                    k < blinding_factors@.len(),
                    s@ == blinding_factors@[k as int].0@,
                    bytes@.len() == 32 * k + j,
                    forall|i: int|
                        0 <= i < 32 * k + j ==> #[trigger] bytes@[i] == blinding_factors@[i
                            / 32].0@[i % 32],
                decreases 32 - j,
            {
                bytes.push(s[j]);
                j = j + 1;
            }
            k = k + 1;
            assert(bytes@ =~= flatten_scalars(blinding_factors@.subrange(0, k as int)));
        }
        assert(blinding_factors@.subrange(0, k as int) =~= blinding_factors@);
        encrypt(pk_r, bytes.as_slice())
    }

    /// The blinding factors, decrypted with the key that `vk` derives from
    /// `r_p`, cut into 32-byte scalars with the top bit cleared; `None` when
    /// `r_p` is not the encoding of a point. The ciphertext must be a whole
    /// number of 32-byte chunks.
    pub fn decrypt_blinding_factors(&self, vk: &ViewKey) -> (factors: Option<Vec<Scalar>>)
        requires
            self.spec_encrypted_blinding_factors().len() % 32 == 0,
        ensures
            factors is Some <==> spec_is_point(self.spec_r_p()),
            factors matches Some(f) ==> f@.map_values(|s: Scalar| s.0@) == chunk_scalars(
                spec_decrypt(
                    spec_note_key(*vk, self.spec_r_p()),
                    self.spec_encrypted_blinding_factors(),
                ),
            ),
            sent_to(*self, spec_base_mul(vk.spec_a()), vk.spec_b_p()) ==> (factors matches Some(f)
                && f@.map_values(|s: Scalar| s.0@) == chunk_scalars(
                spec_decrypt(self.spec_pk_r(), self.spec_encrypted_blinding_factors()),
            )),
    {
        if !is_valid_point(&self.r_p) {
            return None;
        }
        let key = vk.pk_r(&self.r_p);
        proof {
            self.lemma_owner_key(*vk, key.0@);
        }
        let bytes = decrypt(&key, self.encrypted_blinding_factors.as_slice());
        let ghost target = chunk_scalars(bytes@);
        let blen = bytes.len();
        let n = blen / 32;
        let mut out: Vec<Scalar> = Vec::new();
        let mut k: usize = 0;
        while k < n
            invariant
                k <= n,
                n == bytes@.len() / 32,
                blen == bytes@.len(),
                bytes@.len() % 32 == 0,
                target == chunk_scalars(bytes@),
                out@.len() == k,
                forall|m: int| 0 <= m < k ==> #[trigger] out@[m].0@ == target[m],
            decreases n - k,
        {
            let mut s = [0u8; 32];
            let mut j: usize = 0;
            assert(32 * k + 32 <= bytes@.len()) by (nonlinear_arith)
                requires
                    k < n,
                    n == bytes@.len() / 32,
            ;
            while j < 32
                invariant
                    j <= 32,
                    k < n,
                    32 * k + 32 <= bytes@.len(),
                    blen == bytes@.len(),
                    forall|i: int| 0 <= i < j ==> #[trigger] s@[i] == bytes@[32 * k + i],
                decreases 32 - j,
            {
                s[j] = bytes[32 * k + j];
                j = j + 1;
            }
            s[31] = s[31] & 0x7f;
            assert(s@ =~= spec_scalar_from_bits(bytes@.subrange(32 * k, 32 * k + 32)));
            out.push(Scalar(s));
            k = k + 1;
        }
        assert(out@.map_values(|s: Scalar| s.0@) =~= target);
        Some(out)
    }

    /// A new output note of `value` to `pk`, with its blinding factor: a
    /// random `r` gives `R = r·G` and the stealth point `pk_r`; the value is
    /// committed under a random blinding factor, and the value and the
    /// blinding factor are encrypted under `pk_r`.
    pub fn output(pk: &PublicKey, value: u64) -> (res: (ObfuscatedNote, Scalar))
        ensures
            res.0.spec_utxo() == NoteUtxoType::Output,
            res.0.spec_idx().pos == 0,
            sent_to(res.0, pk.spec_a_p(), pk.spec_b_p()),
            res.0.spec_commitments().len() == 1,
            res.0.spec_commitments()[0].0@ == spec_pedersen_commit(spec_value_scalar(value), res.1.0@),
            res.0.spec_encrypted_value() == spec_encrypt(
                res.0.spec_pk_r(),
                spec_u64_to_le_bytes(value),
            ),
            res.0.spec_encrypted_blinding_factors() == spec_encrypt(
                res.0.spec_pk_r(),
                flatten_scalars(seq![res.1]),
            ),
            res.0.spec_encrypted_value().len() == 8,
            res.0.spec_encrypted_blinding_factors().len() == 32,
            res.1.0@[31] < 128,
            opens_under(res.0, res.0.spec_pk_r()),
    {
        let (_r, r_p, pk_r) = ObfuscatedNote::generate_pk_r(pk);
        let idx = PhoenixIdx::default();
        let phoenix_value = PhoenixValue::new(idx, value);
        let commitments = copy_points(phoenix_value.commitments());
        let encrypted_value = ObfuscatedNote::encrypt_value(&pk_r, value);
        let blinding_factor = phoenix_value.blinding_factors()[0];
        let encrypted_blinding_factors = ObfuscatedNote::encrypt_blinding_factors(
            &pk_r,
            phoenix_value.blinding_factors().as_slice(),
        );
        assert(phoenix_value.spec_blinding_factors() =~= seq![blinding_factor]);
        let note = ObfuscatedNote::new(
            NoteUtxoType::Output,
            commitments,
            r_p,
            pk_r,
            idx,
            encrypted_value,
            encrypted_blinding_factors,
        );
        proof {
            lemma_owner_opens_output(note, value, blinding_factor);
            lemma_from_bits_canonical(blinding_factor.0@);
            assert(point_views(note.spec_commitments()) =~= seq![spec_scalar_from_bits(blinding_factor.0@)].map_values(
                |b: Seq<u8>| spec_pedersen_commit(spec_value_scalar(value), b),
            ));
        }
        (note, blinding_factor)
    }

    /// A proof that the note's commitments open to its value: the value and
    /// the blinding factors are decrypted with `vk` and proven to. Fails with
    /// `Generic` exactly when `r_p` is not the encoding of a point.
    pub fn prove_value(&self, vk: &ViewKey) -> (r: Result<Vec<u8>, Error>)
        requires
            self.spec_encrypted_value().len() == 8,
            self.spec_encrypted_blinding_factors().len() % 32 == 0,
        ensures
            !spec_is_point(self.spec_r_p()) <==> r is Err,
            r matches Err(e) ==> e is Generic,
            r matches Ok(p) ==> spec_proof_parses(p@),
    {
        let value = match self.decrypt_value(vk) {
            Some(v) => v,
            None => return Err(Error::Generic),
        };
        let blinding_factors = match self.decrypt_blinding_factors(vk) {
            Some(b) => b,
            None => return Err(Error::Generic),
        };
        let phoenix_value = PhoenixValue::with_blinding_factors(self.idx, value, blinding_factors);
        match phoenix_value.prove(value) {
            Ok(p) => Ok(p),
            Err(_) => Err(Error::Generic),
        }
    }

    /// Checks a proof against the note's commitments: `Ok` when the verifier
    /// accepts it, `Generic` otherwise. Bytes that do not parse are refused;
    /// a valid proof is accepted.
    pub fn verify_value(&self, proof: &[u8]) -> (r: Result<(), Error>)
        ensures
            !spec_proof_parses(proof@) ==> r is Err,
            spec_openings_valid(point_views(self.spec_commitments()), proof@) ==> r is Ok,
            r matches Err(e) ==> e is Generic,
    {
        let phoenix_value = PhoenixValue::with_commitments(copy_points(&self.commitments));
        match phoenix_value.verify(proof) {
            Ok(()) => Ok(()),
            Err(_) => Err(Error::Generic),
        }
    }

    /// The input that spends this note with `sk`: it opens to the value and
    /// the first blinding factor decrypted with `sk`'s view key. `None` when
    /// the ciphertexts do not have the lengths of a value and of whole
    /// blinding factors, when no blinding factor is there, or when `r_p` is
    /// not the encoding of a point.
    pub fn to_transaction_input(self, sk: SecretKey) -> (i: Option<TransactionInput>)
        ensures
            i is Some <==> (self.spec_encrypted_value().len() == 8
                && self.spec_encrypted_blinding_factors().len() % 32 == 0
                && self.spec_encrypted_blinding_factors().len() >= 32 && spec_is_point(self.spec_r_p())),
            i matches Some(input) ==> {
                let key = spec_key_for(sk.spec_a(), spec_base_mul(sk.spec_b()), self.spec_r_p());
                &&& input.spec_note() == Note::Obfuscated(self)
                &&& input.spec_value() == spec_u64_from_le_bytes(spec_decrypt(key, self.spec_encrypted_value()))
                &&& input.spec_blinding_factor() == chunk_scalars(spec_decrypt(key, self.spec_encrypted_blinding_factors()))[0]
                &&& input.spec_has_secret()
            },
            sent_to(self, spec_base_mul(sk.spec_a()), spec_base_mul(sk.spec_b())) ==> (i matches Some(
                input,
            ) ==> {
                &&& input.spec_value() == spec_u64_from_le_bytes(
                    spec_decrypt(self.spec_pk_r(), self.spec_encrypted_value()),
                )
                &&& input.spec_blinding_factor() == chunk_scalars(
                    spec_decrypt(self.spec_pk_r(), self.spec_encrypted_blinding_factors()),
                )[0]
            }),
    {
        if self.encrypted_value.len() != 8 || self.encrypted_blinding_factors.len() % 32 != 0
            || self.encrypted_blinding_factors.len() < 32 {
            return None;
        }
        let vk = sk.view_key();
        let value = match self.decrypt_value(&vk) {
            Some(v) => v,
            None => return None,
        };
        let factors = match self.decrypt_blinding_factors(&vk) {
            Some(f) => f,
            None => return None,
        };
        proof {
            let ct = spec_decrypt(spec_note_key(vk, self.spec_r_p()), self.spec_encrypted_blinding_factors());
            assert(factors@.map_values(|s: Scalar| s.0@).len() == factors@.len());
            assert(ct.len() / 32 >= 1) by (nonlinear_arith)
                requires ct.len() >= 32,
            ;
            assert(factors@.map_values(|s: Scalar| s.0@)[0] == factors@[0].0@);
        }
        let blinding_factor = factors[0];
        Some(TransactionInput::new(Note::Obfuscated(self), value, blinding_factor, sk))
    }

    /// Spent or created.
    pub fn utxo(&self) -> (u: NoteUtxoType)
        ensures
            u == self.spec_utxo(),
    {
        self.utxo
    }

    /// Always `NoteType::Obfuscated`.
    pub fn note(&self) -> (t: NoteType)
        ensures
            t == NoteType::Obfuscated,
    {
        NoteType::Obfuscated
    }

    /// The note's position.
    pub fn idx(&self) -> (idx: &PhoenixIdx)
        ensures
            *idx == self.spec_idx(),
    {
        &self.idx
    }

    /// The same note at position `idx`.
    pub fn set_idx(self, idx: PhoenixIdx) -> (note: ObfuscatedNote)
        ensures
            note.spec_idx() == idx,
            note.spec_utxo() == self.spec_utxo(),
            note.spec_commitments() == self.spec_commitments(),
            note.spec_r_p() == self.spec_r_p(),
            note.spec_pk_r() == self.spec_pk_r(),
            note.spec_encrypted_value() == self.spec_encrypted_value(),
            note.spec_encrypted_blinding_factors() == self.spec_encrypted_blinding_factors(),
    {
        let mut note = self;
        note.idx = idx;
        note
    }

    /// The Pedersen commitments to the value.
    pub fn commitments(&self) -> (c: &Vec<CompressedPoint>)
        ensures
            c@ == self.spec_commitments(),
    {
        &self.commitments
    }

    /// The point `R = r·G` published with the note.
    pub fn r_p(&self) -> (p: CompressedPoint)
        ensures
            p.0@ == self.spec_r_p(),
    {
        self.r_p
    }

    /// The stealth point the note is addressed to.
    pub fn pk_r(&self) -> (p: CompressedPoint)
        ensures
            p.0@ == self.spec_pk_r(),
    {
        self.pk_r
    }

    /// The encrypted value.
    pub fn encrypted_value(&self) -> (ct: &Vec<u8>)
        ensures
            ct@ == self.spec_encrypted_value(),
    {
        &self.encrypted_value
    }

    /// The encrypted blinding factors.
    pub fn encrypted_blinding_factors(&self) -> (ct: &Vec<u8>)
        ensures
            ct@ == self.spec_encrypted_blinding_factors(),
    {
        &self.encrypted_blinding_factors
    }
}

/// Decrypting under the key a value was encrypted with gives the value back.
pub proof fn lemma_value_round_trip(key: Seq<u8>, value: u64)
    ensures
        spec_u64_from_le_bytes(spec_decrypt(key, spec_encrypt(key, spec_u64_to_le_bytes(value))))
            == value,
{
    crate::crypto::lemma_decrypt_encrypt(key, spec_u64_to_le_bytes(value));
    vstd::bytes::lemma_auto_spec_u64_to_from_le_bytes();
}

/// What `output` encrypts under a note's stealth point, the owner of the key
/// the note was sent to decrypts under that point: the value, and the
/// blinding factor with its top bit cleared.
pub proof fn lemma_owner_opens_output(note: ObfuscatedNote, value: u64, blinding_factor: Scalar)
    requires
        note.spec_encrypted_value() == spec_encrypt(note.spec_pk_r(), spec_u64_to_le_bytes(value)),
        note.spec_encrypted_blinding_factors() == spec_encrypt(
            note.spec_pk_r(),
            flatten_scalars(seq![blinding_factor]),
        ),
    ensures
        spec_u64_from_le_bytes(spec_decrypt(note.spec_pk_r(), note.spec_encrypted_value())) == value,
        chunk_scalars(spec_decrypt(note.spec_pk_r(), note.spec_encrypted_blinding_factors()))
            == seq![spec_scalar_from_bits(blinding_factor.0@)],
{
    lemma_value_round_trip(note.spec_pk_r(), value);
    lemma_blinding_factors_round_trip(note.spec_pk_r(), seq![blinding_factor]);
    assert(seq![blinding_factor].map_values(|s: Scalar| spec_scalar_from_bits(s.0@))
        =~= seq![spec_scalar_from_bits(blinding_factor.0@)]);
}

/// Clearing the top bit of a 32-byte encoding whose top bit is clear keeps it.
pub proof fn lemma_from_bits_canonical(bytes: Seq<u8>)
    requires
        bytes.len() == 32,
        bytes[31] < 128,
    ensures
        spec_scalar_from_bits(bytes) == bytes,
{
    let last = bytes[31];
    assert(last & 0x7f == last) by (bit_vector)
        requires
            last < 128,
    ;
    assert(spec_scalar_from_bits(bytes) =~= bytes);
}

/// Decrypting under the key the blinding factors were encrypted with gives
/// each factor back with its top bit cleared.
pub proof fn lemma_blinding_factors_round_trip(key: Seq<u8>, factors: Seq<Scalar>)
    ensures
        chunk_scalars(spec_decrypt(key, spec_encrypt(key, flatten_scalars(factors)))) == factors.map_values(
            |s: Scalar| spec_scalar_from_bits(s.0@),
        ),
{
    let flat = flatten_scalars(factors);
    crate::crypto::lemma_decrypt_encrypt(key, flat);
    let lhs = chunk_scalars(flat);
    let rhs = factors.map_values(|s: Scalar| spec_scalar_from_bits(s.0@));
    assert(flat.len() / 32 == factors.len()) by (nonlinear_arith)
        requires
            flat.len() == 32 * factors.len(),
    ;
    assert forall|k: int| 0 <= k < factors.len() implies #[trigger] lhs[k] == rhs[k] by {
        let chunk = flat.subrange(32 * k, 32 * k + 32);
        assert forall|i: int| 0 <= i < 32 implies chunk[i] == factors[k].0@[i] by {
            assert((32 * k + i) / 32 == k && (32 * k + i) % 32 == i) by (nonlinear_arith)
                requires
                    0 <= i < 32,
            ;
            assert(32 * k + i < 32 * factors.len()) by (nonlinear_arith)
                requires
                    0 <= i < 32,
                    k < factors.len(),
            ;
        }
        assert(chunk =~= factors[k].0@);
    }
    assert(lhs =~= rhs);
}

} // verus!
