//! Symmetric encryption of note secrets under a shared Ristretto point.
//!
//! The point's compressed encoding seeds a ChaCha20 stream; the ciphertext is
//! the plaintext XOR the stream, so decryption is the same operation.
use vstd::prelude::*;

use crate::curve::{keystream, spec_keystream, CompressedPoint};

verus! {

/// Byte-wise XOR of two sequences, as long as the first.
pub open spec fn xor_seq(a: Seq<u8>, b: Seq<u8>) -> Seq<u8> {
    Seq::new(a.len(), |i: int| a[i] ^ b[i])
}

/// The ciphertext of `msg` under `key`.
pub open spec fn spec_encrypt(key: Seq<u8>, msg: Seq<u8>) -> Seq<u8> {
    xor_seq(msg, spec_keystream(key, msg.len()))
}

/// The plaintext of `ct` under `key`.
pub open spec fn spec_decrypt(key: Seq<u8>, ct: Seq<u8>) -> Seq<u8> {
    xor_seq(ct, spec_keystream(key, ct.len()))
}

fn xor_with(data: &[u8], ks: &Vec<u8>) -> (out: Vec<u8>)
    requires
        ks@.len() == data@.len(),
    ensures
        out@ == xor_seq(data@, ks@),
{
    let mut out: Vec<u8> = Vec::with_capacity(data.len());
    let mut i: usize = 0;
    while i < data.len()
        invariant
            i <= data@.len(),
            ks@.len() == data@.len(),
            out@ == Seq::new(i as nat, |j: int| data@[j] ^ ks@[j]),
        decreases data@.len() - i,
    {
        out.push(data[i] ^ ks[i]);
        i = i + 1;
        assert(out@ =~= Seq::new(i as nat, |j: int| data@[j] ^ ks@[j]));
    }
    out
}

/// Encrypts `bytes` under the shared point `key`.
pub fn encrypt(key: &CompressedPoint, bytes: &[u8]) -> (ct: Vec<u8>)
    ensures
        ct@ == spec_encrypt(key.0@, bytes@),
        ct@.len() == bytes@.len(),
{
    let ks = keystream(&key.0, bytes.len());
    xor_with(bytes, &ks)
}

/// Decrypts `bytes` under the shared point `key`.
pub fn decrypt(key: &CompressedPoint, bytes: &[u8]) -> (pt: Vec<u8>)
    ensures
        pt@ == spec_decrypt(key.0@, bytes@),
        pt@.len() == bytes@.len(),
{
    let ks = keystream(&key.0, bytes.len());
    xor_with(bytes, &ks)
}

/// Decrypting under the key a message was encrypted with gives the message back.
pub proof fn lemma_decrypt_encrypt(key: Seq<u8>, msg: Seq<u8>)
    ensures
        spec_decrypt(key, spec_encrypt(key, msg)) == msg,
{
    let ks = spec_keystream(key, msg.len());
    let ct = spec_encrypt(key, msg);
    assert forall|i: int| 0 <= i < msg.len() implies #[trigger] spec_decrypt(key, ct)[i] == msg[i] by {
        let m = msg[i];
        let k = ks[i];
        assert((m ^ k) ^ k == m) by (bit_vector);
    }
    assert(spec_decrypt(key, ct) =~= msg);
}

/// Encryption keeps the length of the message.
pub proof fn lemma_encrypt_len(key: Seq<u8>, msg: Seq<u8>)
    ensures
        spec_encrypt(key, msg).len() == msg.len(),
{
}

} // verus!
