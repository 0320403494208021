use xcm_executor::proof_size::{StorageProofSize, PROOF_RECORDING_DISABLED};

#[test]
fn host_function_returns_size_from_recorder() {
    let mut reader = StorageProofSize::recording();
    assert_eq!(reader.storage_proof_size(), 0);
    reader.note_read(&b"key1".to_vec(), 175);
    assert_eq!(reader.storage_proof_size(), 175);
    reader.note_read(&b"key2".to_vec(), 100);
    assert_eq!(reader.storage_proof_size(), 275);
    reader.note_read(&b"key2".to_vec(), 100);
    assert_eq!(reader.storage_proof_size(), 275);
}

#[test]
fn host_function_returns_max_without_extension() {
    let mut reader = StorageProofSize::disabled();
    assert_eq!(reader.storage_proof_size(), PROOF_RECORDING_DISABLED);
    reader.note_read(&b"key1".to_vec(), 175);
    assert_eq!(reader.storage_proof_size(), PROOF_RECORDING_DISABLED);
    reader.note_read(&b"key2".to_vec(), 100);
    assert_eq!(reader.storage_proof_size(), PROOF_RECORDING_DISABLED);
}

#[test]
fn disabled_sentinel_is_largest_u64() {
    assert_eq!(PROOF_RECORDING_DISABLED, u64::MAX);
}

#[test]
fn recorder_size_saturates() {
    let mut reader = StorageProofSize::recording();
    reader.note_read(&vec![1u8], u64::MAX - 1);
    reader.note_read(&vec![2u8], 10);
    assert_eq!(reader.storage_proof_size(), u64::MAX);
}
