use koru_delta::error::DeltaError;
use koru_delta::mapper::DocumentMapper;

#[test]
fn test_validate_distinction_id_valid() {
    // A SHA-256 hex digest has 64 characters.
    let valid_id = "a".repeat(64);
    assert!(DocumentMapper::validate_distinction_id(&valid_id).is_ok());

    // Primordial distinctions.
    assert!(DocumentMapper::validate_distinction_id("0").is_ok());
    assert!(DocumentMapper::validate_distinction_id("1").is_ok());
}

#[test]
fn test_validate_distinction_id_invalid() {
    // Too short.
    let invalid_id = "abc123";
    assert!(DocumentMapper::validate_distinction_id(invalid_id).is_err());

    // Invalid characters.
    let invalid_id = "g".repeat(64);
    assert!(DocumentMapper::validate_distinction_id(&invalid_id).is_err());
}

#[test]
fn validate_reports_format_error_first() {
    match DocumentMapper::validate_distinction_id("xyz") {
        Err(DeltaError::InvalidData { reason }) => {
            assert_eq!(reason, "Invalid distinction ID format: xyz")
        }
        other => panic!("unexpected result {:?}", other),
    }
}

#[test]
fn validate_reports_bad_characters() {
    let id = format!("{}z", "0".repeat(63));
    match DocumentMapper::validate_distinction_id(&id) {
        Err(DeltaError::InvalidData { reason }) => {
            assert_eq!(reason, format!("Distinction ID contains invalid characters: {}", id))
        }
        other => panic!("unexpected result {:?}", other),
    }
}

#[test]
fn validate_accepts_mixed_case_hex() {
    let id = format!("{}{}", "AbCdEf0123456789".repeat(3), "a".repeat(16));
    assert_eq!(id.len(), 64);
    assert!(DocumentMapper::validate_distinction_id(&id).is_ok());
}

#[test]
fn validate_rejects_colons() {
    let id = ":".repeat(64);
    match DocumentMapper::validate_distinction_id(&id) {
        Err(DeltaError::InvalidData { reason }) => {
            assert_eq!(reason, format!("Distinction ID contains invalid characters: {}", id))
        }
        other => panic!("unexpected result {:?}", other),
    }
    let mixed = format!("{}:{}", "a".repeat(32), "b".repeat(31));
    assert!(DocumentMapper::validate_distinction_id(&mixed).is_err());
}
