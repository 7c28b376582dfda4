use phoenix::crypto;
use phoenix::keys::SecretKey;
use phoenix::note::ObfuscatedNote;

#[test]
fn decrypt() {
    let sk = SecretKey::default();
    let pk = sk.public_key();
    let vk = sk.view_key();

    let (_r, r_g, pk_r) = ObfuscatedNote::generate_pk_r(&pk);

    let bytes = b"some data";
    let encrypted = crypto::encrypt(&pk_r, bytes);
    let decrypted = crypto::decrypt(&vk.pk_r(&r_g), encrypted.as_slice());

    assert_eq!(&bytes[..], decrypted.as_slice());
}

#[test]
fn decrypt_with_wrong_key_should_fail() {
    let sk = SecretKey::default();
    let pk = sk.public_key();
    let vk = sk.view_key();
    let wrong_vk = SecretKey::default().view_key();

    assert_ne!(vk, wrong_vk);

    let (_r, r_g, pk_r) = ObfuscatedNote::generate_pk_r(&pk);

    let bytes = b"some data";
    let encrypted = crypto::encrypt(&pk_r, bytes);
    let decrypted = crypto::decrypt(&wrong_vk.pk_r(&r_g), encrypted.as_slice());

    assert_ne!(&bytes[..], decrypted.as_slice());
}

#[test]
fn decrypt_obfuscated_note() {
    let value = 25;

    let sk = SecretKey::default();
    let pk = sk.public_key();
    let vk = sk.view_key();

    let note = ObfuscatedNote::output(&pk, value).0;
    let decrypt_value = note.decrypt_value(&vk).unwrap();

    assert_eq!(decrypt_value, value);
}

#[test]
fn decrypt_undoes_encrypt_with_the_same_key() {
    let sk = SecretKey::default();
    let pk = sk.public_key();
    let (_r, _r_g, pk_r) = ObfuscatedNote::generate_pk_r(&pk);

    let bytes: Vec<u8> = (0u8..100).collect();
    let encrypted = crypto::encrypt(&pk_r, &bytes);
    assert_eq!(encrypted.len(), bytes.len());
    assert_ne!(encrypted, bytes);
    assert_eq!(crypto::decrypt(&pk_r, &encrypted), bytes);
    assert!(crypto::encrypt(&pk_r, &[]).is_empty());
}
