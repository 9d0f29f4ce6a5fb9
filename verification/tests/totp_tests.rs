use authenticator::clock::{format_id, now_secs, unique_id};
use authenticator::totp::{be_bytes, code_from_hmac, hotp, totp, totp_at, TotpError};

const RFC_SECRET_B32: &str = "GEZDGNBVGY3TQOJQGEZDGNBVGY3TQOJQ";

#[test]
fn counter_bytes_are_big_endian() {
    assert_eq!(be_bytes(0x0102030405060708), vec![1, 2, 3, 4, 5, 6, 7, 8]);
    assert_eq!(be_bytes(59 / 30), 1u64.to_be_bytes().to_vec());
}

#[test]
fn dynamic_truncation_rfc4226_example() {
    let h = [
        0x1f, 0x86, 0x98, 0x69, 0x0e, 0x02, 0xca, 0x16, 0x61, 0x85, 0x50, 0xef, 0x7f, 0x19, 0xda,
        0x8e, 0x94, 0x5b, 0x55, 0x5a,
    ];
    assert_eq!(code_from_hmac(&h, 6), "872921");
    assert_eq!(code_from_hmac(&h, 9), "357872921");
}

#[test]
fn hotp_rfc4226_vectors() {
    let key = b"12345678901234567890";
    let expected = [
        "755224", "287082", "359152", "969429", "338314", "254676", "287922", "162583", "399871",
        "520489",
    ];
    for (counter, want) in expected.iter().enumerate() {
        assert_eq!(hotp(key, counter as u64, 6), *want);
    }
}

#[test]
fn totp_rfc6238_sha1_vectors() {
    let cases = [
        (59u64, "94287082"),
        (1111111109, "07081804"),
        (1111111111, "14050471"),
        (1234567890, "89005924"),
        (2000000000, "69279037"),
        (20000000000, "65353130"),
    ];
    for (t, want) in cases {
        assert_eq!(totp_at(RFC_SECRET_B32, 8, 30, t).unwrap(), want);
    }
}

#[test]
fn totp_code_has_requested_digits() {
    for digits in 1..=9 {
        let code = totp_at(RFC_SECRET_B32, digits, 30, 1234567890).unwrap();
        assert_eq!(code.len(), digits as usize);
        assert!(code.chars().all(|c| c.is_ascii_digit()));
    }
    assert_eq!(totp_at(RFC_SECRET_B32, 0, 30, 59).unwrap(), "0");
}

#[test]
fn totp_refuses_bad_base32() {
    match totp_at("not base32!", 6, 30, 0) {
        Err(e @ TotpError::BadBase32(_)) => assert_eq!(e.message(), "Bad base32: invalid length at 10"),
        other => panic!("unexpected {:?}", other),
    }
}

#[test]
fn totp_now_is_six_digits() {
    let code = totp(RFC_SECRET_B32, 6, 30).unwrap();
    assert_eq!(code.len(), 6);
    assert!(now_secs() > 1_600_000_000);
}

#[test]
fn id_formatting() {
    assert_eq!(format_id(1700000000000, 42), "17000000000000042");
    assert_eq!(format_id(5, 12345), "52345");
    assert_eq!(format_id(-3, 7), "-30007");
    assert_eq!(format_id(1700000000000, 65535), "17000000000005535");
}

#[test]
fn generated_ids_are_digits() {
    let id = unique_id();
    assert_eq!(id.len(), 17);
    assert!(id.chars().all(|c| c.is_ascii_digit()));
    let other = unique_id();
    assert!(other.len() >= 5 && other.chars().all(|c| c.is_ascii_digit()));
}
