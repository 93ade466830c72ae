//! Key material: a pair of base64-encoded X25519 keys, generated
//! through the `crypto_box` crate and encoded through the `base64`
//! crate. Both calls sit behind trusted wrappers; everything else is
//! verified.

use vstd::prelude::*;
use base64::Engine;
use crate::Error;

verus! {

/// What base64 (RFC 4648, standard alphabet, with padding) makes of a
/// byte sequence. Named only; the wrappers below tie it to the
/// `base64` crate's `STANDARD` engine.
pub uninterp spec fn base64_of(b: Seq<u8>) -> Seq<char>;

/// What X25519 makes of a 32-byte secret key: the matching public key.
/// Named only; a function of the secret bytes alone.
pub uninterp spec fn public_key_of(sk: Seq<u8>) -> Seq<u8>;

/// Relies on `crypto_box::SecretKey::generate`: draws a fresh 32-byte
/// secret key from the operating system's randomness. Nothing can be
/// promised of the bytes themselves.
#[verifier::external_body]
fn generate_secret_bytes() -> (r: Vec<u8>)
    ensures
        r@.len() == 32,
{
    let sk = crypto_box::SecretKey::generate(&mut crypto_box::rand_core::OsRng);
    sk.as_bytes().to_vec()
}

/// Relies on `crypto_box::SecretKey::public_key`: X25519 of the secret
/// key over the standard base point, a pure function of its 32 bytes.
#[verifier::external_body]
fn derive_public_bytes(sk: &Vec<u8>) -> (r: Vec<u8>)
    requires
        sk@.len() == 32,
    ensures
        r@ == public_key_of(sk@),
        r@.len() == 32,
{
    let mut bytes = [0u8; 32];
    bytes.copy_from_slice(sk.as_slice());
    let secret = crypto_box::SecretKey::from(bytes);
    secret.public_key().as_bytes().to_vec()
}

/// Relies on `base64::engine::general_purpose::STANDARD.encode`:
/// RFC 4648 standard-alphabet encoding with padding, four output
/// characters for every started group of three input bytes.
#[verifier::external_body]
pub(crate) fn encode_base64(bytes: &[u8]) -> (r: String)
    ensures
        r@ == base64_of(bytes@),
        r@.len() == 4 * ((bytes@.len() + 2) / 3),
{
    base64::engine::general_purpose::STANDARD.encode(bytes)
}

/// Relies on `base64::engine::general_purpose::STANDARD.decode`:
/// strict RFC 4648 decoding (canonical padding required, trailing bits
/// rejected), so it succeeds on every encoder output and a decoded
/// value re-encodes to the input exactly.
#[verifier::external_body]
pub fn decode_base64(s: &str) -> (r: Result<Vec<u8>, Error>)
    ensures
        r matches Ok(v) ==> base64_of(v@) == s@,
        forall|b: Seq<u8>| s@ == #[trigger] base64_of(b) ==> r is Ok,
{
    match base64::engine::general_purpose::STANDARD.decode(s) {
        Ok(v) => Ok(v),
        Err(_) => Err(Error::ParseError),
    }
}

/// A base64-encoded private/public key pair. Immutable once generated;
/// the private half may only ever be rendered into the owner's own
/// configuration text.
pub struct KeyPair {
    pub private: String,
    pub public: String,
}

pub ghost struct KeyPairView {
    pub private: Seq<char>,
    pub public: Seq<char>,
}

impl View for KeyPair {
    type V = KeyPairView;

    open spec fn view(&self) -> KeyPairView {
        KeyPairView { private: self.private@, public: self.public@ }
    }
}

impl Clone for KeyPair {
    fn clone(&self) -> (r: Self)
        ensures
            r@ == self@,
    {
        KeyPair { private: self.private.clone(), public: self.public.clone() }
    }
}

/// The two halves belong together: some 32-byte secret encodes to the
/// private text, and its X25519 public key encodes to the public text.
pub open spec fn keypair_consistent(k: KeyPairView) -> bool {
    exists|sk: Seq<u8>|
        sk.len() == 32 && k.private == base64_of(sk) && k.public == base64_of(#[trigger] public_key_of(sk))
}

impl KeyPair {
    /// A fresh key pair; random, so only its shape is promised.
    pub fn generate() -> (r: Self)
        ensures
            keypair_consistent(r@),
            r@.private.len() == 44,
            r@.public.len() == 44,
    {
        let sk = generate_secret_bytes();
        let pk = derive_public_bytes(&sk);
        let private = encode_base64(sk.as_slice());
        let public = encode_base64(pk.as_slice());
        let r = KeyPair { private, public };
        proof {
            assert(sk@.len() == 32 && r@.private == base64_of(sk@) && r@.public == base64_of(
                public_key_of(sk@),
            ));
        }
        r
    }
}

} // verus!
