use phoenix::keys::SecretKey;
use phoenix::note::{NoteUtxoType, ObfuscatedNote, PhoenixIdx};
use phoenix::transparent::TransparentNote;

#[test]
fn obfuscated_note_value_reads_back_with_its_key() {
    let sk = SecretKey::default();
    let pk = sk.public_key();
    let vk = sk.view_key();
    let (note, blinding_factor) = ObfuscatedNote::output(&pk, 1234);
    assert_eq!(note.decrypt_value(&vk), Some(1234));
    assert_eq!(note.decrypt_blinding_factors(&vk), Some(vec![blinding_factor]));
    assert_eq!(note.utxo(), NoteUtxoType::Output);
    assert_eq!(note.idx().pos, 0);
    assert_eq!(note.commitments().len(), 1);
}

#[test]
fn obfuscated_note_value_with_another_key() {
    let sk = SecretKey::default();
    let pk = sk.public_key();
    let other = SecretKey::default().view_key();
    let (note, _) = ObfuscatedNote::output(&pk, 1234);
    assert_ne!(note.decrypt_value(&other), Some(1234));
}

#[test]
fn view_key_finds_the_stealth_point() {
    let sk = SecretKey::default();
    let pk = sk.public_key();
    let vk = sk.view_key();
    let (_r, r_p, pk_r) = ObfuscatedNote::generate_pk_r(&pk);
    assert_eq!(vk.pk_r(&r_p), pk_r);
    assert_ne!(pk_r, pk.b_p());
}

#[test]
fn obfuscated_note_value_proof() {
    let sk = SecretKey::default();
    let pk = sk.public_key();
    let vk = sk.view_key();
    let (note, _) = ObfuscatedNote::output(&pk, 77);
    let (other, _) = ObfuscatedNote::output(&pk, 77);
    let proof = note.prove_value(&vk).unwrap();
    note.verify_value(&proof).unwrap();
    assert!(other.verify_value(&proof).is_err());
}

#[test]
fn obfuscated_note_spent_by_its_key() {
    let sk = SecretKey::default();
    let pk = sk.public_key();
    let (note, blinding_factor) = ObfuscatedNote::output(&pk, 42);
    let input = note.to_transaction_input(sk).unwrap();
    assert_eq!(input.value(), 42);
    assert_eq!(input.blinding_factor(), blinding_factor);
}

#[test]
fn obfuscated_note_index() {
    let sk = SecretKey::default();
    let (note, _) = ObfuscatedNote::output(&sk.public_key(), 5);
    let note = note.set_idx(PhoenixIdx { pos: 9 });
    assert_eq!(note.idx().pos, 9);
}

#[test]
fn transparent_note_output() {
    let sk = SecretKey::default();
    let pk = sk.public_key();
    let (note, blinding_factor) = TransparentNote::output(&pk, 25);
    assert_eq!(note.value(), 25);
    assert_eq!(note.blinding_factor(), blinding_factor);
    assert_eq!(note.utxo(), NoteUtxoType::Output);
    let input = note.to_transaction_input(sk);
    assert_eq!(input.value(), 25);
    let note = note.set_idx(PhoenixIdx { pos: 3 });
    assert_eq!(note.idx().pos, 3);
}
