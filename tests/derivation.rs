use bcrypt_hash::error::BcryptError;
use bcrypt_hash::kdf::{kdf, warns_few_rounds};

#[test]
fn kdf_openbsd_vector() {
    let k = kdf(b"password", b"salt", 32, 4).unwrap();
    assert_eq!(
        k,
        vec![
            0x5b, 0xbf, 0x0c, 0xc2, 0x93, 0x58, 0x7f, 0x1c, 0x36, 0x35, 0x55, 0x5c, 0x27, 0x79,
            0x65, 0x98, 0xd4, 0x7e, 0x57, 0x90, 0x71, 0xbf, 0x42, 0x7e, 0x9d, 0x8f, 0xbe, 0x84,
            0x2a, 0xba, 0x34, 0xd9,
        ]
    );
}

#[test]
fn kdf_returns_the_length_asked_for() {
    for n in [1usize, 16, 31, 32, 33, 100, 512] {
        assert_eq!(kdf(b"pw", b"salt", n, 1).unwrap().len(), n);
    }
}

#[test]
fn kdf_is_deterministic() {
    assert_eq!(kdf(b"pw", b"salt", 48, 2), kdf(b"pw", b"salt", 48, 2));
}

#[test]
fn kdf_lengths_within_one_block_are_prefixes() {
    let k16 = kdf(b"pw", b"salt", 16, 2).unwrap();
    let k32 = kdf(b"pw", b"salt", 32, 2).unwrap();
    assert_eq!(&k32[..16], &k16[..]);
}

#[test]
fn kdf_longer_outputs_interleave_blocks() {
    let k32 = kdf(b"pw", b"salt", 32, 2).unwrap();
    let k64 = kdf(b"pw", b"salt", 64, 2).unwrap();
    assert_ne!(&k64[..32], &k32[..]);
    for j in 0..32 {
        assert_eq!(k64[2 * j], k32[j]);
    }
}

#[test]
fn kdf_rejects_bad_parameters() {
    assert_eq!(kdf(b"", b"salt", 32, 4), Err(BcryptError::InvalidInput));
    assert_eq!(kdf(b"pw", b"", 32, 4), Err(BcryptError::InvalidInput));
    assert_eq!(kdf(b"pw", b"salt", 0, 4), Err(BcryptError::InvalidInput));
    assert_eq!(kdf(b"pw", b"salt", 513, 4), Err(BcryptError::InvalidInput));
    assert_eq!(kdf(b"pw", b"salt", 32, 0), Err(BcryptError::InvalidInput));
}

#[test]
fn few_rounds_advisory() {
    assert!(warns_few_rounds(49, false));
    assert!(!warns_few_rounds(49, true));
    assert!(!warns_few_rounds(50, false));
    assert!(warns_few_rounds(1, false));
}
