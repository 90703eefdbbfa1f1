//! Hashing a password under a salt string, checking a password against a
//! stored hash, and generating salt strings.

use vstd::prelude::*;
use vstd::slice::{slice_subrange, slice_to_vec};
use crate::codec::b64_encode;
use crate::error::BcryptError;
use crate::format::{parse_salt, parse_spec, serialize, serialize_spec, tag, version_of, Version};

verus! {

/// Longest password that hashing accepts.
pub const MAX_PASSWORD_LEN: usize = 72;

/// The 24 bytes that the expensive-key-schedule Blowfish engine produces for
/// a cost, sixteen salt bytes and a key.
pub uninterp spec fn eks_digest(cost: u32, salt: Seq<u8>, key: Seq<u8>) -> Seq<u8>;

/// Relies on `bcrypt::bcrypt`: runs `2^cost` rounds of key expansion over
/// salt and key, then encrypts "OrpheanBeholderScryDoubt" 64 times. It
/// asserts a key of 1 to 72 bytes and a cost under 32.
pub assume_specification[ bcrypt::bcrypt ](cost: u32, salt: [u8; 16], password: &[u8]) -> (r: [u8; 24])
    requires
        cost < 32,
        0 < password@.len() <= 72,
    ensures
        r@ == eks_digest(cost, salt@, password@),
;

/// The engine's key for a password: the password with a zero byte after it,
/// cut to 72 bytes.
pub open spec fn key_of(p: Seq<u8>) -> Seq<u8> {
    let k = p.push(0u8);
    if k.len() > 72 {
        k.take(72)
    } else {
        k
    }
}

/// The 23 stored digest bytes for a password under a cost and salt.
pub open spec fn digest_of(p: Seq<u8>, cost: u32, salt: Seq<u8>) -> Seq<u8> {
    eks_digest(cost, salt, key_of(p)).take(23)
}

/// The hash string of password `p` under the salt (or hash) string `s`: the
/// version, cost and salt of `s` with the digest of `p` under them.
pub open spec fn hash_spec(p: Seq<u8>, s: Seq<u8>) -> Result<Seq<u8>, BcryptError> {
    if p.len() > 72 {
        Err(BcryptError::PasswordTooLong)
    } else {
        match parse_spec(s) {
            None => Err(BcryptError::InvalidSalt),
            Some((v, c, salt, _)) => Ok(serialize_spec(v, c, salt, digest_of(p, c, salt))),
        }
    }
}

/// Whether `p` hashes under the stored hash `h` to `h` itself.
pub open spec fn check_spec(p: Seq<u8>, h: Seq<u8>) -> Result<bool, BcryptError> {
    match hash_spec(p, h) {
        Ok(r) => Ok(r == h),
        Err(e) => Err(e),
    }
}

/// The salt string for a cost, a version tag and sixteen salt bytes; only
/// the tags `2a` and `2b` are offered.
pub open spec fn gensalt_spec(rounds: u16, prefix: Seq<u8>, salt: Seq<u8>) -> Result<
    Seq<u8>,
    BcryptError,
> {
    if prefix != tag(Version::TwoA) && prefix != tag(Version::TwoB) {
        Err(BcryptError::InvalidPrefix)
    } else if !(4 <= rounds <= 31) {
        Err(BcryptError::InvalidRounds)
    } else {
        Ok(serialize_spec(version_of(prefix)->0, rounds as u32, salt, seq![]))
    }
}

fn engine_key(password: &[u8]) -> (k: Vec<u8>)
    requires
        password@.len() <= 72,
    ensures
        k@ == key_of(password@),
        0 < k@.len() <= 72,
{
    let mut k = slice_to_vec(password);
    if k.len() < MAX_PASSWORD_LEN {
        k.push(0u8);
    }
    proof {
        if password@.len() == 72 {
            assert(password@.push(0u8).take(72) =~= password@);
        }
    }
    k
}

fn salt_array(s: &Vec<u8>) -> (a: [u8; 16])
    requires
        s@.len() == 16,
    ensures
        a@ == s@,
{
    let mut a = [0u8; 16];
    let mut i: usize = 0;
    while i < 16
        invariant
            i <= 16,
            s@.len() == 16,
            forall|j: int| 0 <= j < i ==> a@[j] == s@[j],
        decreases 16 - i,
    {
        a[i] = s[i];
        i = i + 1;
    }
    assert(a@ =~= s@);
    a
}

/// Hashes a password of at most 72 bytes under a salt string (or the hash
/// string that carries it), keeping the version tag of that string.
pub fn hashpw(password: &[u8], salt: &[u8]) -> (r: Result<Vec<u8>, BcryptError>)
    ensures
        match r {
            Ok(h) => hash_spec(password@, salt@) == Ok::<Seq<u8>, BcryptError>(h@),
            Err(e) => hash_spec(password@, salt@) == Err::<Seq<u8>, BcryptError>(e),
        },
        r matches Ok(h) ==> h@.len() == 60,
{
    if password.len() > MAX_PASSWORD_LEN {
        return Err(BcryptError::PasswordTooLong);
    }
    let parts = match parse_salt(salt) {
        Ok(p) => p,
        Err(e) => {
            return Err(e);
        },
    };
    proof {
        crate::codec::lemma_decode_encode(parts.salt@);
    }
    let key = engine_key(password);
    let raw = bcrypt::bcrypt(parts.cost, salt_array(&parts.salt), key.as_slice());
    let digest = slice_subrange(raw.as_slice(), 0, 23);
    assert(digest@ =~= digest_of(password@, parts.cost, parts.salt@));
    proof {
        crate::codec::lemma_decode_encode(digest@);
    }
    Ok(serialize(parts.version, parts.cost, parts.salt.as_slice(), digest))
}


/// Relies on subtle's `ConstantTimeEq` for byte slices: true exactly when
/// lengths and contents agree, without an early exit on contents.
#[verifier::external_body]
fn ct_eq(a: &[u8], b: &[u8]) -> (r: bool)
    ensures
        r == (a@ == b@),
{
    bool::from(subtle::ConstantTimeEq::ct_eq(a, b))
}

/// Hashes the password under the stored hash and compares the result with
/// the stored hash in constant time.
pub fn checkpw(password: &[u8], hashed_password: &[u8]) -> (r: Result<bool, BcryptError>)
    ensures
        match r {
            Ok(b) => check_spec(password@, hashed_password@) == Ok::<bool, BcryptError>(b),
            Err(e) => check_spec(password@, hashed_password@) == Err::<bool, BcryptError>(e),
        },
        r == Ok::<bool, BcryptError>(true) ==> hashed_password@.len() == 60,
{
    match hashpw(password, hashed_password) {
        Ok(h) => Ok(ct_eq(h.as_slice(), hashed_password)),
        Err(e) => Err(e),
    }
}

/// The salt string for a cost, a version tag (`2a` or `2b`) and sixteen
/// given salt bytes. A bad tag is reported before a bad cost.
pub fn gensalt_with_salt(rounds: u16, prefix: &[u8], salt: &[u8; 16]) -> (r: Result<
    Vec<u8>,
    BcryptError,
>)
    ensures
        match r {
            Ok(e) => gensalt_spec(rounds, prefix@, salt@) == Ok::<Seq<u8>, BcryptError>(e@),
            Err(e) => gensalt_spec(rounds, prefix@, salt@) == Err::<Seq<u8>, BcryptError>(e),
        },
{
    let version = if prefix.len() == 2 && prefix[0] == 50u8 && prefix[1] == 97u8 {
        assert(prefix@ =~= tag(Version::TwoA));
        Version::TwoA
    } else if prefix.len() == 2 && prefix[0] == 50u8 && prefix[1] == 98u8 {
        assert(prefix@ =~= tag(Version::TwoB));
        Version::TwoB
    } else {
        proof {
            if prefix@.len() == 2 {
                assert(prefix@[0] != 50u8 || (prefix@[1] != 97u8 && prefix@[1] != 98u8));
            }
            assert(prefix@ != tag(Version::TwoA) && prefix@ != tag(Version::TwoB)) by {
                if prefix@ == tag(Version::TwoA) {
                    assert(prefix@[1] == 97u8);
                }
                if prefix@ == tag(Version::TwoB) {
                    assert(prefix@[1] == 98u8);
                }
            }
        }
        return Err(BcryptError::InvalidPrefix);
    };
    if rounds < 4 || rounds > 31 {
        return Err(BcryptError::InvalidRounds);
    }
    let empty: Vec<u8> = Vec::new();
    let r = serialize(version, rounds as u32, salt.as_slice(), empty.as_slice());
    assert(empty@ =~= Seq::<u8>::empty());
    Ok(r)
}

/// Relies on `getrandom::fill`: on success the buffer holds bytes drawn from
/// the system's entropy source; nothing is known of their values.
#[verifier::external_body]
fn random_salt() -> (r: Option<[u8; 16]>) {
    let mut s = [0u8; 16];
    match getrandom::fill(&mut s) {
        Ok(()) => Some(s),
        Err(_) => None,
    }
}

/// A salt string for a cost and a version tag, with sixteen fresh random
/// salt bytes; `EntropyError` where the entropy source fails.
pub fn gensalt(rounds: u16, prefix: &[u8]) -> (r: Result<Vec<u8>, BcryptError>)
    ensures
        prefix@ != tag(Version::TwoA) && prefix@ != tag(Version::TwoB) ==> r == Err::<
            Vec<u8>,
            BcryptError,
        >(BcryptError::InvalidPrefix),
        (prefix@ == tag(Version::TwoA) || prefix@ == tag(Version::TwoB)) && !(4 <= rounds <= 31)
            ==> r == Err::<Vec<u8>, BcryptError>(BcryptError::InvalidRounds),
        (prefix@ == tag(Version::TwoA) || prefix@ == tag(Version::TwoB)) && 4 <= rounds <= 31
            ==> (r is Ok || r == Err::<Vec<u8>, BcryptError>(BcryptError::EntropyError)),
        r matches Ok(e) ==> exists|salt: Seq<u8>|
            salt.len() == 16 && gensalt_spec(rounds, prefix@, salt) == Ok::<
                Seq<u8>,
                BcryptError,
            >(#[trigger] e@),
        r matches Err(e) ==> e == BcryptError::InvalidPrefix || e == BcryptError::InvalidRounds
            || e == BcryptError::EntropyError,
{
    // parameters are checked before any entropy is drawn
    let zero = [0u8; 16];
    match gensalt_with_salt(rounds, prefix, &zero) {
        Err(e) => {
            return Err(e);
        },
        Ok(_) => {},
    }
    match random_salt() {
        Some(salt) => gensalt_with_salt(rounds, prefix, &salt),
        None => Err(BcryptError::EntropyError),
    }
}

/// Hashing is a function of password and salt string alone: equal inputs
/// give equal results, errors included.
pub proof fn lemma_hash_deterministic(p1: Seq<u8>, s1: Seq<u8>, p2: Seq<u8>, s2: Seq<u8>)
    requires
        p1 == p2,
        s1 == s2,
    ensures
        hash_spec(p1, s1) == hash_spec(p2, s2),
{
}

/// A password checks against its own hash under any salt string.
pub proof fn lemma_check_own_hash(p: Seq<u8>, s: Seq<u8>)
    requires
        p.len() <= 72,
        parse_spec(s) is Some,
    ensures
        hash_spec(p, s) is Ok,
        check_spec(p, hash_spec(p, s)->Ok_0) == Ok::<bool, BcryptError>(true),
{
    let (v, c, salt, _) = parse_spec(s)->0;
    crate::format::lemma_parsed_salt_len(s);
    crate::format::lemma_parse_serialize(v, c, salt, digest_of(p, c, salt));
}

/// A password checks against a fresh salt's hash of itself: for a cost in
/// `4..=31`, a tag `2a` or `2b` and any sixteen salt bytes.
pub proof fn lemma_check_own_gensalt_hash(p: Seq<u8>, rounds: u16, prefix: Seq<u8>, salt: Seq<u8>)
    requires
        p.len() <= 72,
        salt.len() == 16,
        gensalt_spec(rounds, prefix, salt) is Ok,
    ensures
        hash_spec(p, gensalt_spec(rounds, prefix, salt)->Ok_0) is Ok,
        check_spec(p, hash_spec(p, gensalt_spec(rounds, prefix, salt)->Ok_0)->Ok_0) == Ok::<
            bool,
            BcryptError,
        >(true),
{
    let v = version_of(prefix)->0;
    crate::format::lemma_parse_serialize(v, rounds as u32, salt, seq![]);
    lemma_check_own_hash(p, gensalt_spec(rounds, prefix, salt)->Ok_0);
}

/// Another password checks against a stored hash exactly when its 23 digest
/// bytes under the stored cost and salt equal the stored ones; in particular
/// whenever the two passwords give the same engine key.
pub proof fn lemma_check_other_password(p: Seq<u8>, p2: Seq<u8>, s: Seq<u8>)
    requires
        p.len() <= 72,
        p2.len() <= 72,
        parse_spec(s) is Some,
    ensures
        ({
            let (v, c, salt, _) = parse_spec(s)->0;
            check_spec(p2, hash_spec(p, s)->Ok_0) == Ok::<bool, BcryptError>(
                digest_of(p2, c, salt) == digest_of(p, c, salt),
            )
        }),
        key_of(p2) == key_of(p) ==> check_spec(p2, hash_spec(p, s)->Ok_0) == Ok::<
            bool,
            BcryptError,
        >(true),
{
    let (v, c, salt, _) = parse_spec(s)->0;
    let d1 = digest_of(p, c, salt);
    let d2 = digest_of(p2, c, salt);
    crate::format::lemma_parsed_salt_len(s);
    crate::format::lemma_parse_serialize(v, c, salt, d1);
    crate::format::lemma_parse_serialize(v, c, salt, d2);
    let h1 = serialize_spec(v, c, salt, d1);
    let h2 = serialize_spec(v, c, salt, d2);
    if h1 == h2 {
        crate::codec::lemma_decode_encode(d1);
        crate::codec::lemma_decode_encode(d2);
        assert(b64_encode(d1) == b64_encode(d2));
    }
}

} // verus!
