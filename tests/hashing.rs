use bcrypt_hash::error::BcryptError;
use bcrypt_hash::hash::{checkpw, gensalt, gensalt_with_salt, hashpw};

#[test]
fn hash_with_fixed_salt_matches_known_digest() {
    let salt: [u8; 16] = [
        38, 113, 212, 141, 108, 213, 195, 166, 201, 38, 20, 13, 47, 40, 104, 18,
    ];
    let s = gensalt_with_salt(5, b"2b", &salt).unwrap();
    assert_eq!(s, b"$2b$05$HlFShUxTu4ZHHfOLJwfmCe".to_vec());
    let h = hashpw(b"My S3cre7 P@55w0rd!", &s).unwrap();
    assert_eq!(
        h,
        b"$2b$05$HlFShUxTu4ZHHfOLJwfmCeDj/kuKFKboanXtDJXxCC7aIPTUgxNDe".to_vec()
    );
}

#[test]
fn cost_twelve_vector_keeps_every_version_tag() {
    for tag in ["2a", "2b", "2x", "2y"] {
        let salt = format!("${}$12$......................", tag);
        let expected = format!("${}$12$......................21jzCB1r6pN6rp5O2Ev0ejjTAboskKm", tag);
        let h = hashpw(b"hunter2", salt.as_bytes()).unwrap();
        assert_eq!(h, expected.as_bytes().to_vec());
    }
}

#[test]
fn known_vector_salt_r9h_password() {
    let salt = b"$2b$12$R9h/cIPz0gi.URNNX3kh2O";
    let h = hashpw(b"password", salt).unwrap();
    assert_eq!(h.len(), 60);
    assert_eq!(&h[..29], &salt[..]);
    assert_eq!(checkpw(b"password", &h), Ok(true));
    assert!(bcrypt::verify("password", std::str::from_utf8(&h).unwrap()).unwrap());
}

#[test]
fn rehashing_a_hash_reproduces_it() {
    let h = b"$2b$04$EGdrhbKUv8Oc9vGiXX0HQOxSg445d458Muh7DAHskb6QbtCvdxcie";
    assert_eq!(hashpw(b"correctbatteryhorsestapler", h).unwrap(), h.to_vec());
    assert_eq!(checkpw(b"correctbatteryhorsestapler", h), Ok(true));
    let a = b"$2a$04$UuTkLRZZ6QofpDOlMz32MuuxEHA43WOemOYHPz6.SjsVsyO1tDU96";
    assert_eq!(checkpw(b"password", a), Ok(true));
}

#[test]
fn wrong_password_does_not_check() {
    let h = b"$2b$04$EGdrhbKUv8Oc9vGiXX0HQOxSg445d458Muh7DAHskb6QbtCvdxcie";
    assert_eq!(checkpw(b"wrong", h), Ok(false));
}

#[test]
fn hashing_is_deterministic() {
    let s = b"$2b$04$EGdrhbKUv8Oc9vGiXX0HQO";
    let a = hashpw(b"same input", s).unwrap();
    let b = hashpw(b"same input", s).unwrap();
    assert_eq!(a, b);
}

#[test]
fn password_of_72_bytes_hashes_and_73_fails() {
    let p72 = vec![b'x'; 72];
    let h = hashpw(&p72, b"$2a$05$......................").unwrap();
    assert_eq!(
        h,
        b"$2a$05$......................YgIDy4hFBdVlc/6LHnD9mX488r9cLd2".to_vec()
    );
    let p73 = vec![b'x'; 73];
    assert_eq!(
        hashpw(&p73, b"$2a$05$......................"),
        Err(BcryptError::PasswordTooLong)
    );
    assert_eq!(
        checkpw(&p73, &h),
        Err(BcryptError::PasswordTooLong)
    );
}

#[test]
fn empty_password_hashes() {
    let h = hashpw(b"", b"$2b$04$EGdrhbKUv8Oc9vGiXX0HQO").unwrap();
    assert_eq!(checkpw(b"", &h), Ok(true));
    assert_eq!(checkpw(b"a", &h), Ok(false));
}

#[test]
fn zero_byte_passwords_share_the_cyclic_key() {
    // the engine repeats its zero-terminated key, so "" and "\0" agree
    let h = hashpw(b"", b"$2b$04$EGdrhbKUv8Oc9vGiXX0HQO").unwrap();
    assert_eq!(checkpw(b"\0", &h), Ok(true));
    let h = hashpw(b"\0", b"$2b$04$EGdrhbKUv8Oc9vGiXX0HQO").unwrap();
    assert_eq!(checkpw(b"\0\0\0\0\0\0\0\0", &h), Ok(true));
}

#[test]
fn unknown_version_is_invalid_salt() {
    assert_eq!(
        hashpw(b"pw", b"$2c$12$R9h/cIPz0gi.URNNX3kh2O"),
        Err(BcryptError::InvalidSalt)
    );
}

#[test]
fn cost_below_four_is_invalid_salt() {
    assert_eq!(
        hashpw(b"pw", b"$2b$3$R9h/cIPz0gi.URNNX3kh2O"),
        Err(BcryptError::InvalidSalt)
    );
    assert_eq!(
        hashpw(b"pw", b"$2b$32$R9h/cIPz0gi.URNNX3kh2O"),
        Err(BcryptError::InvalidSalt)
    );
}

#[test]
fn two_segments_is_invalid_salt() {
    assert_eq!(
        hashpw(b"pw", b"$2b$R9h/cIPz0gi.URNNX3kh2O"),
        Err(BcryptError::InvalidSalt)
    );
    assert_eq!(
        hashpw(b"pw", b"$2b$12$R9h/cIPz0gi.URNNX3kh2O$x"),
        Err(BcryptError::InvalidSalt)
    );
}

#[test]
fn malformed_salt_text_is_invalid_salt() {
    assert_eq!(
        hashpw(b"pw", b"$2b$12$R9h/cIPz0gi.URNNX3kh2"),
        Err(BcryptError::InvalidSalt)
    );
    assert_eq!(
        hashpw(b"pw", b"$2b$12$R9h/cIPz0gi.URNNX3kh2!"),
        Err(BcryptError::InvalidSalt)
    );
    // the last symbol carries bits beyond the sixteenth byte
    assert_eq!(
        hashpw(b"pw", b"$2b$12$R9h/cIPz0gi.URNNX3kh2P"),
        Err(BcryptError::InvalidSalt)
    );
    assert_eq!(
        hashpw(b"pw", b"$2b$ab$R9h/cIPz0gi.URNNX3kh2O"),
        Err(BcryptError::InvalidSalt)
    );
}

#[test]
fn separators_repeated_and_signed_cost_are_accepted() {
    let a = hashpw(b"pw", b"$$2b$$04$$EGdrhbKUv8Oc9vGiXX0HQO").unwrap();
    let b = hashpw(b"pw", b"$2b$+0004$EGdrhbKUv8Oc9vGiXX0HQO").unwrap();
    let c = hashpw(b"pw", b"$2b$04$EGdrhbKUv8Oc9vGiXX0HQO").unwrap();
    assert_eq!(a, c);
    assert_eq!(b, c);
}

#[test]
fn gensalt_rejects_bad_prefix_and_rounds() {
    let salt = [0u8; 16];
    assert_eq!(gensalt_with_salt(12, b"2y", &salt), Err(BcryptError::InvalidPrefix));
    assert_eq!(gensalt_with_salt(3, b"2x", &salt), Err(BcryptError::InvalidPrefix));
    assert_eq!(gensalt_with_salt(3, b"2b", &salt), Err(BcryptError::InvalidRounds));
    assert_eq!(gensalt_with_salt(32, b"2a", &salt), Err(BcryptError::InvalidRounds));
    assert_eq!(gensalt(3, b"2b"), Err(BcryptError::InvalidRounds));
    assert_eq!(gensalt(12, b"2c"), Err(BcryptError::InvalidPrefix));
}

#[test]
fn gensalt_with_salt_formats_cost_with_two_digits() {
    let salt = [0u8; 16];
    assert_eq!(
        gensalt_with_salt(4, b"2a", &salt).unwrap(),
        b"$2a$04$......................".to_vec()
    );
    assert_eq!(
        gensalt_with_salt(31, b"2b", &[255u8; 16]).unwrap(),
        b"$2b$31$999999999999999999999u".to_vec()
    );
}

#[test]
fn fresh_salt_verifies_own_hash() {
    let s = gensalt(4, b"2b").unwrap();
    assert_eq!(s.len(), 29);
    assert_eq!(&s[..7], b"$2b$04$");
    let h = hashpw(b"secret", &s).unwrap();
    assert_eq!(checkpw(b"secret", &h), Ok(true));
    assert_eq!(checkpw(b"secreT", &h), Ok(false));
}

#[test]
fn salt_only_or_extended_string_does_not_check() {
    let s = b"$2b$04$R9h/cIPz0gi.URNNX3kh2O";
    assert_eq!(checkpw(b"password", s), Ok(false));
    let h = hashpw(b"password", s).unwrap();
    assert_eq!(h.len(), 60);
    let mut longer = h.clone();
    longer.extend_from_slice(b"abc");
    assert_eq!(checkpw(b"password", &longer), Ok(false));
    let mut changed = h.clone();
    changed[59] = if changed[59] == b'.' { b'/' } else { b'.' };
    assert_eq!(checkpw(b"password", &changed), Ok(false));
}
