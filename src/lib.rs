//! bcrypt password hashing and bcrypt-pbkdf key derivation, with the
//! `$version$cost$salt[digest]` text format stated and proved.

pub mod codec;
pub mod error;
pub mod format;
pub mod hash;
pub mod kdf;
