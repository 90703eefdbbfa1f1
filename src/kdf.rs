//! bcrypt-pbkdf key derivation with its parameter checks.

use vstd::prelude::*;
use crate::error::BcryptError;

verus! {

/// Largest number of key bytes that derivation hands out.
pub const MAX_KEY_BYTES: usize = 512;

/// Round counts below this draw an advisory: the count is linear.
pub const FEW_ROUNDS: u32 = 50;

/// The `len` bytes that bcrypt-pbkdf derives from a password, a salt and a
/// round count.
pub uninterp spec fn pbkdf_output(password: Seq<u8>, salt: Seq<u8>, rounds: u32, len: nat) -> Seq<u8>;

/// Relies on `bcrypt_pbkdf::bcrypt_pbkdf`: it fails exactly on an empty
/// password or salt, zero rounds, or an output that is empty or longer than
/// 1024 bytes, and otherwise overwrites the whole output.
#[verifier::external_body]
fn bcrypt_pbkdf_into(password: &[u8], salt: &[u8], rounds: u32, output: &mut Vec<u8>) -> (ok: bool)
    ensures
        final(output)@.len() == old(output)@.len(),
        ok <==> (password@.len() > 0 && salt@.len() > 0 && rounds > 0 && 0 < old(output)@.len()
            <= 1024),
        ok ==> final(output)@ == pbkdf_output(password@, salt@, rounds, old(output)@.len()),
{
    bcrypt_pbkdf::bcrypt_pbkdf(password, salt, rounds, output.as_mut_slice()).is_ok()
}

/// Whether the parameters of a derivation are in range.
pub open spec fn kdf_params_ok(password: Seq<u8>, salt: Seq<u8>, n: usize, rounds: u32) -> bool {
    password.len() > 0 && salt.len() > 0 && 0 < n <= 512 && rounds > 0
}

/// Derives `desired_key_bytes` bytes from a password and a salt with
/// `rounds` rounds of bcrypt-pbkdf.
pub fn kdf(password: &[u8], salt: &[u8], desired_key_bytes: usize, rounds: u32) -> (r: Result<
    Vec<u8>,
    BcryptError,
>)
    ensures
        r is Ok <==> kdf_params_ok(password@, salt@, desired_key_bytes, rounds),
        r matches Ok(k) ==> k@.len() == desired_key_bytes && k@ == pbkdf_output(
            password@,
            salt@,
            rounds,
            desired_key_bytes as nat,
        ),
        r matches Err(e) ==> e == BcryptError::InvalidInput,
{
    if password.len() == 0 || salt.len() == 0 {
        return Err(BcryptError::InvalidInput);
    }
    if desired_key_bytes == 0 || desired_key_bytes > MAX_KEY_BYTES {
        return Err(BcryptError::InvalidInput);
    }
    if rounds < 1 {
        return Err(BcryptError::InvalidInput);
    }
    let mut out: Vec<u8> = Vec::new();
    while out.len() < desired_key_bytes
        invariant
            out@.len() <= desired_key_bytes,
        decreases desired_key_bytes - out@.len(),
    {
        out.push(0u8);
    }
    let ok = bcrypt_pbkdf_into(password, salt, rounds, &mut out);
    assert(ok);
    Ok(out)
}

/// Whether a derivation with this round count calls for the advisory that
/// the count is linear and low.
pub fn warns_few_rounds(rounds: u32, ignore_few_rounds: bool) -> (r: bool)
    ensures
        r == (rounds < 50 && !ignore_few_rounds),
{
    rounds < FEW_ROUNDS && !ignore_few_rounds
}

/// Derivation is a function of its parameters alone: equal parameters give
/// equal keys.
pub proof fn lemma_kdf_deterministic(
    p1: Seq<u8>,
    s1: Seq<u8>,
    p2: Seq<u8>,
    s2: Seq<u8>,
    n: usize,
    rounds: u32,
)
    requires
        p1 == p2,
        s1 == s2,
    ensures
        pbkdf_output(p1, s1, rounds, n as nat) == pbkdf_output(p2, s2, rounds, n as nat),
{
}

} // verus!
