use authenticator::secret::{clean_secret, looks_like_secret, DecodeFailureKind, SecretError};

#[test]
fn clean_secret_strips_and_uppercases() {
    assert_eq!(clean_secret("jbsw y3dp ehpk 3pxp").unwrap(), "JBSWY3DPEHPK3PXP");
    assert_eq!(clean_secret("\tJBSW\nY3DP ").unwrap(), "JBSWY3DP");
}

#[test]
fn clean_secret_is_idempotent() {
    let once = clean_secret(" gezd gnbv gy3t qojq ").unwrap();
    let twice = clean_secret(&once).unwrap();
    assert_eq!(once, twice);
    assert!(once.chars().all(|c| c.is_ascii_uppercase() || ('2'..='7').contains(&c)));
}

#[test]
fn clean_secret_refuses_empty() {
    assert!(matches!(clean_secret(""), Err(SecretError::Empty)));
    assert!(matches!(clean_secret(" \t\n "), Err(SecretError::Empty)));
    assert_eq!(clean_secret("  ").unwrap_err().message(), "Secret is empty");
}

#[test]
fn clean_secret_refuses_invalid_symbol() {
    match clean_secret("abc1") {
        Err(SecretError::InvalidBase32(f)) => {
            assert_eq!(f.kind, DecodeFailureKind::Symbol);
            assert_eq!(f.position, 3);
            assert_eq!(f.text, "invalid symbol at 3");
        }
        other => panic!("unexpected {:?}", other),
    }
    assert_eq!(
        clean_secret("abc1").unwrap_err().message(),
        "Invalid base32 secret: invalid symbol at 3"
    );
}

#[test]
fn clean_secret_refuses_invalid_length() {
    match clean_secret("A") {
        Err(SecretError::InvalidBase32(f)) => assert_eq!(f.kind, DecodeFailureKind::Length),
        other => panic!("unexpected {:?}", other),
    }
}

#[test]
fn clean_secret_refuses_trailing_bits() {
    match clean_secret("AB") {
        Err(SecretError::InvalidBase32(f)) => assert_eq!(f.kind, DecodeFailureKind::Trailing),
        other => panic!("unexpected {:?}", other),
    }
    assert_eq!(clean_secret("AA").unwrap(), "AA");
}

#[test]
fn too_long_message() {
    assert_eq!(SecretError::TooLong.message(), "Secret is too long");
}

#[test]
fn looks_like_secret_cases() {
    assert!(looks_like_secret("JBSWY3DPEHPK3PXP"));
    assert!(looks_like_secret("jbswy3dpehpk3pxp"));
    assert!(looks_like_secret("JBSW Y3DP EHPK 3PXP"));
    assert!(!looks_like_secret("JBSWY3DPEHPK3PX"));
    assert!(!looks_like_secret("JBSWY3DPEHPK3PX1"));
    assert!(!looks_like_secret("hunter2hunter2hunter2!"));
    assert!(!looks_like_secret(""));
    assert!(!looks_like_secret("ÄÄÄÄÄÄÄÄÄ"));
}

#[test]
fn clean_secret_refuses_wrong_symbol_count() {
    match clean_secret("JBSWY3DPEHPK3PXPA") {
        Err(SecretError::InvalidBase32(f)) => {
            assert_eq!(f.kind, DecodeFailureKind::Length);
            assert_eq!(f.position, 16);
            assert_eq!(f.text, "invalid length at 16");
        }
        other => panic!("unexpected {:?}", other),
    }
    match clean_secret("not-base32!") {
        Err(SecretError::InvalidBase32(f)) => {
            assert_eq!(f.kind, DecodeFailureKind::Length);
            assert_eq!(f.position, 10);
            assert_eq!(f.text, "invalid length at 10");
        }
        other => panic!("unexpected {:?}", other),
    }
}

#[test]
fn clean_secret_refuses_non_zero_trailing_bits() {
    match clean_secret("mz") {
        Err(SecretError::InvalidBase32(f)) => {
            assert_eq!(f.kind, DecodeFailureKind::Trailing);
            assert_eq!(f.position, 1);
            assert_eq!(f.text, "non-zero trailing bits at 1");
        }
        other => panic!("unexpected {:?}", other),
    }
    assert_eq!(clean_secret("my").unwrap(), "MY");
}
