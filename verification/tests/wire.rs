use phoenix::item::Note;
use phoenix::keys::SecretKey;
use phoenix::note::ObfuscatedNote;
use phoenix::transparent::TransparentNote;
use phoenix::wire::{read_note, read_obfuscated, read_prefixed, read_transparent, read_u64, read_u8};

#[test]
fn reads_little_endian_integers() {
    let bytes = [9u8, 1, 2, 0, 0, 0, 0, 0, 0, 5];
    assert_eq!(read_u8(&bytes, 0), Some((9, 1)));
    assert_eq!(read_u64(&bytes, 1), Some((0x0201, 9)));
    assert_eq!(read_u64(&bytes, 3), None);
    assert_eq!(read_u8(&bytes, 10), None);
}

#[test]
fn reads_length_prefixed_bytes() {
    let bytes = [3u8, 0, 0, 0, 0, 0, 0, 0, 7, 8, 9, 10];
    assert_eq!(read_prefixed(&bytes, 0), Some((vec![7, 8, 9], 11)));
    let short = [4u8, 0, 0, 0, 0, 0, 0, 0, 7, 8, 9];
    assert_eq!(read_prefixed(&short, 0), None);
}

#[test]
fn transparent_note_bytes_read_back() {
    let sk = SecretKey::default();
    let (note, _) = TransparentNote::output(&sk.public_key(), 25);
    let bytes = note.to_bytes();
    let (read, n) = read_transparent(&bytes, 0).unwrap();
    assert_eq!(n, bytes.len());
    assert_eq!(read.value(), 25);
    assert_eq!(read.to_bytes(), bytes);
}

#[test]
fn obfuscated_note_bytes_read_back() {
    let sk = SecretKey::default();
    let (note, _) = ObfuscatedNote::output(&sk.public_key(), 25);
    let bytes = note.to_bytes();
    let (read, n) = read_obfuscated(&bytes, 0).unwrap();
    assert_eq!(n, bytes.len());
    assert_eq!(read.to_bytes(), bytes);
    assert_eq!(read.decrypt_value(&sk.view_key()), Some(25));

    let wrapped = Note::Obfuscated(note);
    let bytes = wrapped.to_bytes();
    let (read, n) = read_note(&bytes, 0).unwrap();
    assert_eq!(n, bytes.len());
    assert_eq!(read.hash(), wrapped.hash());
    assert!(read_note(&bytes[..bytes.len() - 1], 0).is_none());
}
