use phoenix::error::Error;
use phoenix::item::{TransactionInput, TransactionOutput};
use phoenix::keys::{PublicKey, SecretKey, ViewKey};
use phoenix::note::ObfuscatedNote;
use phoenix::transaction::Transaction;
use phoenix::transparent::TransparentNote;
use phoenix::{MAX_INPUT_NOTES_PER_TRANSACTION, MAX_OUTPUT_NOTES_PER_TRANSACTION};

fn generate_keys() -> (SecretKey, ViewKey, PublicKey) {
    let sk = SecretKey::default();
    let vk = sk.view_key();
    let pk = sk.public_key();

    (sk, vk, pk)
}

#[test]
fn transaction_items() {
    let (_, _, pk) = generate_keys();
    let value = 25;
    let (note, blinding_factor) = ObfuscatedNote::output(&pk, value);
    let item = note.to_transaction_output(value, blinding_factor, pk);
    assert_eq!(value, item.value());
}

fn input_of(value: u64) -> TransactionInput {
    let (sk, _, pk) = generate_keys();
    let (note, _) = TransparentNote::output(&pk, value);
    note.to_transaction_input(sk)
}

fn obfuscated_output_of(value: u64) -> TransactionOutput {
    let (_, _, pk) = generate_keys();
    let (note, blinding_factor) = ObfuscatedNote::output(&pk, value);
    note.to_transaction_output(value, blinding_factor, pk)
}

fn transparent_output_of(value: u64) -> TransactionOutput {
    let (_, _, pk) = generate_keys();
    let (note, blinding_factor) = TransparentNote::output(&pk, value);
    note.to_transaction_output(value, blinding_factor, pk)
}

fn transaction_of(input: u64, outputs: &[u64], fee: u64) -> Transaction {
    let mut tx = Transaction::default();
    tx.push_input(input_of(input)).unwrap();
    for v in outputs {
        tx.push_output(obfuscated_output_of(*v)).unwrap();
    }
    tx.set_fee(transparent_output_of(fee));
    tx
}

#[test]
fn default_transaction_is_empty() {
    let tx = Transaction::default();
    assert_eq!(tx.inputs().len(), 0);
    assert_eq!(tx.outputs().len(), 0);
    assert_eq!(tx.all_inputs().len(), MAX_INPUT_NOTES_PER_TRANSACTION);
    assert_eq!(tx.all_outputs().len(), MAX_OUTPUT_NOTES_PER_TRANSACTION);
    assert_eq!(tx.fee().value(), 0);
    assert!(tx.get_proof().is_none());
    assert!(tx.public_inputs().commitments.is_empty());
}

#[test]
fn push_input_beyond_the_slots_fails() {
    let mut tx = Transaction::default();
    assert!(tx.push_input(input_of(10)).is_ok());
    assert!(matches!(tx.push_input(input_of(20)), Err(Error::MaximumNotes)));
    assert_eq!(tx.inputs().len(), 1);
    assert_eq!(tx.inputs()[0].value(), 10);
}

#[test]
fn push_output_beyond_the_slots_fails() {
    let mut tx = Transaction::default();
    assert!(tx.push_output(obfuscated_output_of(1)).is_ok());
    assert!(tx.push_output(obfuscated_output_of(2)).is_ok());
    assert!(matches!(tx.push_output(obfuscated_output_of(3)), Err(Error::MaximumNotes)));
    assert_eq!(tx.outputs().len(), 2);
    assert_eq!(tx.outputs()[0].value(), 1);
    assert_eq!(tx.outputs()[1].value(), 2);
}

#[test]
fn remove_input_returns_the_removed_item() {
    let mut tx = Transaction::default();
    tx.push_input(input_of(100)).unwrap();
    assert!(tx.remove_input(1).is_none());
    let removed = tx.remove_input(0).unwrap();
    assert_eq!(removed.value(), 100);
    assert_eq!(tx.inputs().len(), 0);
    assert_eq!(tx.all_inputs()[0].value(), 0);
    assert!(tx.remove_input(0).is_none());
}

#[test]
fn remove_output_moves_the_last_one_in() {
    let mut tx = Transaction::default();
    tx.push_output(obfuscated_output_of(30)).unwrap();
    tx.push_output(obfuscated_output_of(20)).unwrap();
    let removed = tx.remove_output(0).unwrap();
    assert_eq!(removed.value(), 30);
    assert_eq!(tx.outputs().len(), 1);
    assert_eq!(tx.outputs()[0].value(), 20);
    assert_eq!(tx.all_outputs()[1].value(), 0);
}

#[test]
fn hash_does_not_depend_on_the_order_of_items() {
    let a = obfuscated_output_of(30);
    let b = obfuscated_output_of(20);
    let fee = transparent_output_of(50);
    let input = input_of(100);

    let mut first = Transaction::default();
    first.push_input(input.clone()).unwrap();
    first.push_output(a.clone()).unwrap();
    first.push_output(b.clone()).unwrap();
    first.set_fee(fee.clone());

    let mut second = Transaction::default();
    second.push_input(input).unwrap();
    second.push_output(b).unwrap();
    second.push_output(a).unwrap();
    second.set_fee(fee);

    assert_eq!(first.hash(), second.hash());
    assert!(first.eq(&second));

    let other = transaction_of(100, &[30, 20], 50);
    assert_ne!(first.hash(), other.hash());
    assert!(!first.eq(&other));
}

#[test]
fn sort_items_keeps_the_hash() {
    let mut tx = transaction_of(100, &[30, 20], 50);
    let h = tx.hash();
    tx.sort_items();
    assert_eq!(tx.hash(), h);
    assert_eq!(tx.outputs().len(), 2);
    let mut values: Vec<u64> = tx.outputs().iter().map(|o| o.value()).collect();
    values.sort();
    assert_eq!(values, vec![20, 30]);
}

#[test]
fn balanced_transaction_proves_and_verifies() {
    let mut tx = transaction_of(100, &[30, 20], 50);
    assert!(tx.verify().is_err());
    tx.prove().unwrap();
    tx.verify().unwrap();
    assert_eq!(tx.public_inputs().commitments.len(), 4);
    assert_eq!(tx.fee().value(), 50);
}

#[test]
fn unbalanced_transaction_is_not_proven() {
    let mut tx = transaction_of(100, &[30, 20], 40);
    assert!(matches!(tx.prove(), Err(Error::Generic)));
    assert!(tx.get_proof().is_none());
    assert!(matches!(tx.verify(), Err(Error::Generic)));
}

#[test]
fn proof_of_another_transaction_does_not_verify() {
    let mut tx = transaction_of(100, &[30, 20], 50);
    let mut other = transaction_of(97, &[45, 50], 2);
    tx.prove().unwrap();
    other.prove().unwrap();
    let other_proof = other.get_proof().unwrap().clone();
    tx.set_proof(other_proof);
    assert!(matches!(tx.verify(), Err(Error::Generic)));
}

#[test]
fn random_transaction_is_balanced() {
    let mut tx = Transaction::random();
    let inputs: u128 = tx.inputs().iter().map(|i| i.value() as u128).sum();
    let outputs: u128 = tx.outputs().iter().map(|o| o.value() as u128).sum();
    assert_eq!(inputs, outputs + tx.fee().value() as u128);
    assert!(tx.get_proof().is_none());
    tx.prove().unwrap();
    tx.verify().unwrap();
}

#[test]
fn clear_sensitive_info_keeps_the_hash() {
    let mut tx = transaction_of(100, &[30, 20], 50);
    let h = tx.hash();
    tx.clear_sensitive_info();
    assert_eq!(tx.hash(), h);
    assert_eq!(tx.inputs().len(), 1);
    assert_eq!(tx.outputs().len(), 2);
    assert!(tx.all_inputs().iter().all(|i| i.value() == 0));
    assert!(tx.all_outputs().iter().all(|o| o.value() == 0));
    assert_eq!(tx.fee().value(), 50);
}

#[test]
fn set_fee_pk_keeps_the_value() {
    let mut tx = transaction_of(100, &[30, 20], 50);
    let (_, _, miner) = generate_keys();
    tx.set_fee_pk(miner);
    assert_eq!(tx.fee().value(), 50);
    assert_eq!(tx.fee().pk(), Some(miner));
}

#[test]
fn bytes_read_back_what_was_written() {
    let mut tx = transaction_of(100, &[30, 20], 50);
    tx.prove().unwrap();
    let h = tx.hash();
    let bytes = tx.to_bytes();
    assert!(tx.all_inputs().iter().all(|i| i.value() == 0));

    let (mut read, n) = Transaction::from_bytes(&bytes).unwrap();
    assert_eq!(n, bytes.len());
    assert_eq!(read.hash(), h);
    assert_eq!(read.inputs().len(), 1);
    assert_eq!(read.outputs().len(), 2);
    assert_eq!(read.get_proof(), tx.get_proof());
    assert_eq!(read.public_inputs().commitments, tx.public_inputs().commitments);
    read.verify().unwrap();
    assert_eq!(read.to_bytes(), bytes);

    let mut longer = bytes.clone();
    longer.extend_from_slice(&[7, 7, 7]);
    let (_, m) = Transaction::from_bytes(&longer).unwrap();
    assert_eq!(m, bytes.len());
}

#[test]
fn malformed_bytes_are_refused() {
    assert!(matches!(Transaction::from_bytes(&[]), Err(Error::Io(_))));
    assert!(matches!(Transaction::from_bytes(&[2]), Err(Error::Io(_))));

    let mut tx = Transaction::default();
    let bytes = tx.to_bytes();
    assert!(Transaction::from_bytes(&bytes).is_ok());
    assert!(matches!(
        Transaction::from_bytes(&bytes[..bytes.len() - 1]),
        Err(Error::Io(_))
    ));

    // no proof (1 byte), no public inputs (8 bytes), then the inputs in use
    let mut too_many = bytes.clone();
    too_many[9] = 2;
    assert!(matches!(Transaction::from_bytes(&too_many), Err(Error::Io(_))));
}

#[test]
fn hex_text_of_the_hash() {
    let tx = transaction_of(100, &[30, 20], 50);
    let h = tx.hash();
    let lower = tx.to_hex_lower();
    let upper = tx.to_hex_upper();
    let expected: String = h.iter().map(|b| format!("{:02x}", b)).collect();
    assert_eq!(lower, expected);
    assert_eq!(upper, expected.to_uppercase());
    assert_eq!(lower.len(), 64);
}

#[test]
fn rpc_parts_skip_zero_values() {
    let mut tx = Transaction::default();
    tx.push_input(input_of(100)).unwrap();
    tx.push_output(obfuscated_output_of(60)).unwrap();
    tx.set_fee(transparent_output_of(40));
    let (inputs, outputs, fee, proof) = tx.to_rpc_parts();
    assert_eq!(inputs.len(), 1);
    assert_eq!(outputs.len(), 1);
    assert_eq!(outputs[0].value(), 60);
    assert_eq!(fee.value(), 40);
    assert!(proof.is_empty());
}

#[test]
fn rpc_transaction_round_trip() {
    let mut tx = transaction_of(100, &[50, 47], 3);
    tx.prove().unwrap();
    tx.verify().unwrap();
    let commitments = tx.public_inputs().commitments.clone();
    let proof = tx.get_proof().unwrap().clone();

    let (inputs, outputs, fee, proof_bytes) = tx.to_rpc_parts();
    assert_eq!(proof_bytes, proof);
    let read =
        Transaction::try_from_rpc_transaction(Some(fee), inputs, outputs, proof_bytes).unwrap();
    assert_eq!(read.fee().value(), 3);
    assert_eq!(read.get_proof(), Some(&proof));
    assert_eq!(read.public_inputs().commitments, commitments);
    read.verify().unwrap();
}

#[test]
fn rpc_transaction_with_a_foreign_proof_is_refused() {
    let mut tx = transaction_of(100, &[50, 47], 3);
    let mut other = transaction_of(100, &[50, 47], 3);
    tx.prove().unwrap();
    other.prove().unwrap();
    let foreign = other.get_proof().unwrap().clone();
    let (inputs, outputs, fee, _) = tx.to_rpc_parts();
    assert!(matches!(
        Transaction::try_from_rpc_transaction(Some(fee), inputs, outputs, foreign),
        Err(Error::Generic)
    ));
}

#[test]
fn default_transaction_is_sent_empty() {
    let (inputs, outputs, fee, proof) = Transaction::default().to_rpc_parts();
    assert!(inputs.is_empty());
    assert!(outputs.is_empty());
    assert_eq!(fee.value(), 0);
    assert!(fee.pk().is_none());
    assert_eq!(fee.hash(), TransactionOutput::default().hash());
    assert!(proof.is_empty());
}

#[test]
fn sorting_a_sorted_transaction_changes_nothing() {
    let mut tx = transaction_of(100, &[30, 20], 50);
    tx.sort_items();
    let before: Vec<[u8; 32]> = tx.outputs().iter().map(|o| o.hash()).collect();
    tx.sort_items();
    let after: Vec<[u8; 32]> = tx.outputs().iter().map(|o| o.hash()).collect();
    assert_eq!(before, after);
}

#[test]
fn rpc_transaction_errors() {
    let too_many = vec![input_of(1), input_of(2)];
    assert!(matches!(
        Transaction::try_from_rpc_transaction(None, too_many, vec![], vec![]),
        Err(Error::MaximumNotes)
    ));
    assert!(matches!(
        Transaction::try_from_rpc_transaction(None, vec![input_of(1)], vec![], vec![1, 2, 3]),
        Err(Error::R1CS(_))
    ));
    let tx = Transaction::try_from_rpc_transaction(None, vec![input_of(1)], vec![], vec![]).unwrap();
    assert_eq!(tx.inputs().len(), 1);
    assert_eq!(tx.fee().value(), 0);
    assert!(tx.get_proof().is_none());
}

#[test]
fn rpc_io_is_proven_and_verified() {
    let tx = Transaction::try_from_rpc_io(
        3,
        vec![input_of(100)],
        vec![obfuscated_output_of(50), obfuscated_output_of(47)],
    )
    .unwrap();
    tx.verify().unwrap();
    assert_eq!(tx.fee().value(), 3);

    assert!(matches!(
        Transaction::try_from_rpc_io(4, vec![input_of(100)], vec![obfuscated_output_of(97)]),
        Err(Error::Generic)
    ));
    assert!(matches!(
        Transaction::try_from_rpc_io(0, vec![input_of(1), input_of(1)], vec![]),
        Err(Error::MaximumNotes)
    ));
}

#[test]
fn from_values_keeps_the_positive_values() {
    let tx = Transaction::from_values(&vec![5], &vec![3, 0], 2);
    assert_eq!(tx.inputs().len(), 1);
    assert_eq!(tx.inputs()[0].value(), 5);
    assert_eq!(tx.outputs().len(), 1);
    assert_eq!(tx.outputs()[0].value(), 3);
    assert_eq!(tx.fee().value(), 2);
    assert!(tx.fee().pk().is_some());
    assert!(tx.get_proof().is_none());

    let empty = Transaction::from_values(&vec![0], &vec![0, 0], 0);
    assert!(empty.inputs().is_empty());
    assert!(empty.outputs().is_empty());
}

#[test]
fn bytes_written_again_are_the_same() {
    let mut tx = transaction_of(100, &[30, 20], 50);
    tx.prove().unwrap();
    let bytes = tx.to_bytes();
    let (mut read, _) = Transaction::from_bytes(&bytes).unwrap();
    assert_eq!(read.to_bytes(), bytes);
}
