//! The cryptographic functions the library takes from other crates, each behind one item whose
//! contract is taken on trust.

use base64::engine::general_purpose::STANDARD;
use base64::Engine as Base64Engine;
use chacha20poly1305::aead::{Aead, KeyInit, Payload};
use chacha20poly1305::{ChaCha20Poly1305, Nonce};
use vstd::prelude::*;
use x25519_dalek::{PublicKey, StaticSecret};

verus! {

/// The BLAKE3 hash of `message`.
pub uninterp spec fn blake3_digest(message: Seq<u8>) -> Seq<u8>;

/// `blake3::hash`: the 32 bytes depend on the message alone.
#[verifier::external_body]
pub(crate) fn blake3_hash(message: &[u8]) -> (digest: [u8; 32])
    ensures
        digest@ == blake3_digest(message@),
{
    *blake3::hash(message).as_bytes()
}

/// The error of the AEAD: a unit, so that it tells nothing.
#[verifier::external_type_specification]
#[verifier::external_body]
pub struct ExAeadError(chacha20poly1305::aead::Error);

/// What ChaCha20-Poly1305 makes of `message` under `key` and `nonce`, with no associated data:
/// the ciphertext and, behind it, the tag.
pub uninterp spec fn chacha20poly1305_sealed(
    key: Seq<u8>,
    nonce: Seq<u8>,
    message: Seq<u8>,
) -> Seq<u8>;

/// `ChaCha20Poly1305::encrypt` with no associated data. The output depends on key, nonce and
/// message alone and is 16 bytes longer than the message. It fails only for a message of about
/// 256 GiB and more, which the bound on the length leaves out.
#[verifier::external_body]
pub(crate) fn aead_encrypt(key: &[u8; 32], nonce: &[u8; 12], message: &[u8]) -> (sealed: Result<
    Vec<u8>,
    chacha20poly1305::aead::Error,
>)
    requires
        message@.len() <= 0xffff_ffff,
    ensures
        sealed is Ok,
        sealed->Ok_0@ == chacha20poly1305_sealed(key@, nonce@, message@),
        sealed->Ok_0@.len() == message@.len() + 16,
{
    ChaCha20Poly1305::new(&(*key).into()).encrypt(
        &Nonce::from(*nonce),
        Payload { msg: message, aad: &[] },
    )
}

/// `ChaCha20Poly1305::decrypt` with no associated data. It succeeds exactly on what encryption
/// under the same key and nonce puts out, and gives back the message that went in: the tag is
/// checked against the ciphertext before the key stream is taken off again.
#[verifier::external_body]
pub(crate) fn aead_decrypt(key: &[u8; 32], nonce: &[u8; 12], sealed: &[u8]) -> (message: Result<
    Vec<u8>,
    chacha20poly1305::aead::Error,
>)
    requires
        sealed@.len() <= 0xffff_ffff,
    ensures
        message matches Ok(m) ==> {
            &&& m@.len() + 16 == sealed@.len()
            &&& chacha20poly1305_sealed(key@, nonce@, m@) == sealed@
        },
        forall|m: Seq<u8>|
            m.len() + 16 == sealed@.len() && #[trigger] chacha20poly1305_sealed(key@, nonce@, m)
                == sealed@ ==> message is Ok && message->Ok_0@ == m,
{
    ChaCha20Poly1305::new(&(*key).into()).decrypt(
        &Nonce::from(*nonce),
        Payload { msg: sealed, aad: &[] },
    )
}

/// The X25519 public key of a secret key.
pub uninterp spec fn x25519_public(secret: Seq<u8>) -> Seq<u8>;

/// `PublicKey::from` for a `StaticSecret`: the base point multiplied by the clamped secret,
/// which depends on the secret alone.
#[verifier::external_body]
pub(crate) fn x25519_public_key(secret: &[u8; 32]) -> (public: [u8; 32])
    ensures
        public@ == x25519_public(secret@),
{
    PublicKey::from(&StaticSecret::from(*secret)).to_bytes()
}

/// The character that stands for six bits in the standard alphabet of base64.
pub open spec fn base64_char(six: int) -> char {
    if six < 26 {
        (65 + six) as char
    } else if six < 52 {
        (97 + (six - 26)) as char
    } else if six < 62 {
        (48 + (six - 52)) as char
    } else if six == 62 {
        '+'
    } else {
        '/'
    }
}

/// The byte at `i`, and zero past the end.
pub open spec fn byte_or_zero(s: Seq<u8>, i: int) -> int {
    if 0 <= i < s.len() {
        s[i] as int
    } else {
        0
    }
}

/// Standard base64 with padding: four characters for every three bytes or part of three, each
/// character for six bits of the group, `=` where no bit of the input falls.
pub open spec fn base64_text(s: Seq<u8>) -> Seq<char> {
    Seq::new(
        ((s.len() + 2) / 3 * 4) as nat,
        |i: int|
            {
                let b = i / 4 * 3;
                let group = byte_or_zero(s, b) * 0x1_0000 + byte_or_zero(s, b + 1) * 0x100
                    + byte_or_zero(s, b + 2);
                if i % 4 == 0 {
                    base64_char(group / 0x4_0000)
                } else if i % 4 == 1 {
                    base64_char(group / 0x1000 % 64)
                } else if i % 4 == 2 {
                    if b + 1 < s.len() {
                        base64_char(group / 64 % 64)
                    } else {
                        '='
                    }
                } else if b + 2 < s.len() {
                    base64_char(group % 64)
                } else {
                    '='
                }
            },
    )
}

/// `Engine::encode` of `base64`'s `STANDARD` engine: the standard alphabet, padded.
#[verifier::external_body]
pub(crate) fn base64_encode(bytes: &[u8; 32]) -> (text: String)
    ensures
        text@ == base64_text(bytes@),
{
    STANDARD.encode(bytes)
}

/// The error of the system's random number source.
#[verifier::external_type_specification]
#[verifier::external_body]
pub struct ExRandomError(getrandom::Error);

/// `getrandom::fill` on 32 bytes. Nothing is claimed of the bytes, nor of when the source fails.
#[verifier::external_body]
pub(crate) fn random_bytes() -> (bytes: Result<[u8; 32], getrandom::Error>) {
    let mut bytes = [0u8; 32];
    getrandom::fill(&mut bytes)?;
    Ok(bytes)
}

} // verus!
