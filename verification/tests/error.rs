use review_index::error::StoreError;

#[test]
fn every_error_has_its_message() {
    assert_eq!(StoreError::Validation.message(), "invalid input");
    assert_eq!(StoreError::Integrity.message(), "store integrity lost");
    assert_eq!(StoreError::NotFound.message(), "record not found");
}

#[test]
fn errors_compare_by_kind() {
    assert_eq!(StoreError::Validation, StoreError::Validation);
    assert_ne!(StoreError::Validation, StoreError::Integrity);
    assert_ne!(StoreError::Integrity, StoreError::NotFound);
}
