use bcrypt_hash::error::BcryptError;
use bcrypt_hash::format::{parse_salt, parse_u32_digits, serialize, Version};

#[test]
fn serialize_then_parse_round_trip() {
    let salt: Vec<u8> = (0u8..16).collect();
    let digest: Vec<u8> = (100u8..123).collect();
    for (v, c) in [(Version::TwoA, 4u32), (Version::TwoB, 12), (Version::TwoX, 31), (Version::TwoY, 9)] {
        let s = serialize(v, c, &salt, &digest);
        assert_eq!(s.len(), 60);
        let p = parse_salt(&s).unwrap();
        assert_eq!(p.version, v);
        assert_eq!(p.cost, c);
        assert_eq!(p.salt, salt);
        assert_eq!(p.rest, s[29..].to_vec());
    }
}

#[test]
fn serialize_encodes_salt_in_bcrypt_alphabet() {
    let s = serialize(Version::TwoB, 5, &[0u8; 16], &[]);
    assert_eq!(s, b"$2b$05$......................".to_vec());
    let s = serialize(Version::TwoY, 10, &[0xffu8; 16], &[0u8; 1]);
    assert_eq!(s, b"$2y$10$999999999999999999999u..".to_vec());
}

#[test]
fn parse_salt_reads_fields() {
    let p = parse_salt(b"$2y$12$L6Bc/AlTQHyd9liGgGEZyOFLPHNgyxeEPfgYfBCVxJ7JIlwxyVU3u").unwrap();
    assert_eq!(p.version, Version::TwoY);
    assert_eq!(p.cost, 12);
    assert_eq!(p.rest, b"FLPHNgyxeEPfgYfBCVxJ7JIlwxyVU3u".to_vec());
    assert_eq!(p.salt.len(), 16);
}

#[test]
fn parse_salt_rejects_malformed_strings() {
    for s in [
        &b"!2y$12$L6Bc/AlTQHyd9liGgGEZyO"[..],
        b"$2y$-12$L6Bc/AlTQHyd9liGgGEZyO",
        b"$2y$12$L6Bc/AlTQHyd9lGEZyO",
        b"$2y$",
        b"",
    ] {
        assert_eq!(parse_salt(s).err(), Some(BcryptError::InvalidSalt));
    }
}

#[test]
fn decimal_cost_parsing() {
    assert_eq!(parse_u32_digits(b"12"), Some(12));
    assert_eq!(parse_u32_digits(b"+7"), Some(7));
    assert_eq!(parse_u32_digits(b"0004"), Some(4));
    assert_eq!(parse_u32_digits(b"4294967295"), Some(u32::MAX));
    assert_eq!(parse_u32_digits(b"4294967296"), None);
    assert_eq!(parse_u32_digits(b"+"), None);
    assert_eq!(parse_u32_digits(b""), None);
    assert_eq!(parse_u32_digits(b"-1"), None);
    assert_eq!(parse_u32_digits(b"1a"), None);
}
