use vstd::prelude::*;

use crate::bytes::opt_bytes;

verus! {

/// Bytes of a secret-box nonce.
pub const NONCEBYTES: usize = 24;

/// Bytes of a secret-box key.
pub const KEYBYTES: usize = 32;

/// Bytes of the authenticator that a secret box adds to its message.
pub const MACBYTES: usize = 16;

/// Bytes of a Curve25519 public key, secret key or shared point.
pub const PUBLICKEYBYTES: usize = 32;

/// Bytes of an Ed25519 public key.
pub const SIGN_PUBLICKEYBYTES: usize = 32;

/// Bytes of an Ed25519 secret key.
pub const SIGN_SECRETKEYBYTES: usize = 64;

/// The ciphertext that XSalsa20-Poly1305 makes of message `m` under nonce `n` and key `k`.
pub uninterp spec fn secretbox_seal_of(m: Seq<u8>, n: Seq<u8>, k: Seq<u8>) -> Seq<u8>;

/// What XSalsa20-Poly1305 recovers from ciphertext `c` under nonce `n` and key `k`:
/// `None` when `c` fails verification.
pub uninterp spec fn secretbox_open_of(c: Seq<u8>, n: Seq<u8>, k: Seq<u8>) -> Option<Seq<u8>>;

/// The Curve25519 product of scalar `n` and point `p`: `None` when the result is the
/// all-zero point.
pub uninterp spec fn curve25519_of(n: Seq<u8>, p: Seq<u8>) -> Option<Seq<u8>>;

/// The Curve25519 public key that belongs to secret key `sk`: its product with the
/// standard base point.
pub uninterp spec fn curve25519_base_of(sk: Seq<u8>) -> Seq<u8>;

/// Diffie-Hellman agreement for the keypair `(pk, sk)`: for every other 32-byte secret
/// `q`, multiplying `q`'s public key by `sk` gives what multiplying `pk` by `q` gives.
pub open spec fn agrees(pk: Seq<u8>, sk: Seq<u8>) -> bool {
    forall|q: Seq<u8>|
        q.len() == 32 ==> #[trigger] curve25519_of(sk, curve25519_base_of(q)) == curve25519_of(q, pk)
}

/// The signed message that Ed25519 makes of `m` under secret key `sk`.
pub uninterp spec fn ed25519_sign_of(m: Seq<u8>, sk: Seq<u8>) -> Seq<u8>;

/// The message that Ed25519 recovers from signed message `sm` under public key `pk`:
/// `None` when the signature fails verification.
pub uninterp spec fn ed25519_open_of(sm: Seq<u8>, pk: Seq<u8>) -> Option<Seq<u8>>;

/// Relies on `sodiumoxide::crypto::secretbox::gen_nonce`: a random nonce.
#[verifier::external_body]
pub(crate) fn gen_nonce() -> (r: Vec<u8>)
    ensures
        r@.len() == NONCEBYTES,
{
    sodiumoxide::crypto::secretbox::gen_nonce().as_ref().to_vec()
}

/// Relies on `sodiumoxide::crypto::secretbox::gen_key`: a random key.
#[verifier::external_body]
pub(crate) fn gen_key() -> (r: Vec<u8>)
    ensures
        r@.len() == KEYBYTES,
{
    sodiumoxide::crypto::secretbox::gen_key().as_ref().to_vec()
}

/// Relies on `sodiumoxide::crypto::box_::gen_keypair`: a random secret key and the
/// public key that corresponds to it (the Curve25519 base-point product, so that the
/// pair agrees with every other key as Diffie-Hellman requires), public key first.
#[verifier::external_body]
pub(crate) fn box_gen_keypair() -> (r: (Vec<u8>, Vec<u8>))
    ensures
        r.0@.len() == PUBLICKEYBYTES,
        r.1@.len() == PUBLICKEYBYTES,
        r.0@ == curve25519_base_of(r.1@),
        agrees(r.0@, r.1@),
{
    let (pk, sk) = sodiumoxide::crypto::box_::gen_keypair();
    (pk.as_ref().to_vec(), sk.as_ref().to_vec())
}

/// Relies on `sodiumoxide::crypto::sign::gen_keypair`: a random Ed25519 keypair,
/// public key first; `verify` with the public key opens what `sign` with the secret
/// key signed.
#[verifier::external_body]
pub(crate) fn sign_gen_keypair() -> (r: (Vec<u8>, Vec<u8>))
    ensures
        r.0@.len() == SIGN_PUBLICKEYBYTES,
        r.1@.len() == SIGN_SECRETKEYBYTES,
        forall|m: Seq<u8>| #[trigger] ed25519_open_of(ed25519_sign_of(m, r.1@), r.0@) == Some(m),
{
    let (pk, sk) = sodiumoxide::crypto::sign::gen_keypair();
    (pk.as_ref().to_vec(), sk.as_ref().to_vec())
}

/// Relies on `sodiumoxide::randombytes::randombytes`: `size` random bytes.
#[verifier::external_body]
pub(crate) fn random_bytes(size: usize) -> (r: Vec<u8>)
    ensures
        r@.len() == size,
{
    sodiumoxide::randombytes::randombytes(size)
}

/// Relies on `sodiumoxide::crypto::scalarmult::scalarmult`: the product of a scalar
/// and a point, or an error when the result is the all-zero point.
#[verifier::external_body]
pub(crate) fn scalarmult(n: &[u8], p: &[u8]) -> (r: Option<Vec<u8>>)
    requires
        n@.len() == PUBLICKEYBYTES,
        p@.len() == PUBLICKEYBYTES,
    ensures
        opt_bytes(r) == curve25519_of(n@, p@),
        r matches Some(q) ==> q@.len() == PUBLICKEYBYTES,
{
    let n = sodiumoxide::crypto::scalarmult::Scalar::from_slice(n).unwrap();
    let p = sodiumoxide::crypto::scalarmult::GroupElement::from_slice(p).unwrap();
    match sodiumoxide::crypto::scalarmult::scalarmult(&n, &p) {
        Ok(q) => Some(q.as_ref().to_vec()),
        Err(()) => None,
    }
}

/// Relies on `sodiumoxide::crypto::secretbox::seal`: the ciphertext is the message's
/// length plus the authenticator, and opening it with the same nonce and key gives
/// the message back.
#[verifier::external_body]
pub(crate) fn secretbox_seal(m: &[u8], n: &[u8], k: &[u8]) -> (r: Vec<u8>)
    requires
        n@.len() == NONCEBYTES,
        k@.len() == KEYBYTES,
    ensures
        r@ == secretbox_seal_of(m@, n@, k@),
        r@.len() == m@.len() + MACBYTES,
        secretbox_open_of(r@, n@, k@) == Some(m@),
{
    let n = sodiumoxide::crypto::secretbox::Nonce::from_slice(n).unwrap();
    let k = sodiumoxide::crypto::secretbox::Key::from_slice(k).unwrap();
    sodiumoxide::crypto::secretbox::seal(m, &n, &k)
}

/// Relies on `sodiumoxide::crypto::secretbox::open`: the message, which is the
/// ciphertext's length less the authenticator, or an error when verification fails.
#[verifier::external_body]
pub(crate) fn secretbox_open(c: &[u8], n: &[u8], k: &[u8]) -> (r: Option<Vec<u8>>)
    requires
        n@.len() == NONCEBYTES,
        k@.len() == KEYBYTES,
    ensures
        opt_bytes(r) == secretbox_open_of(c@, n@, k@),
        r matches Some(m) ==> m@.len() + MACBYTES == c@.len(),
{
    let n = sodiumoxide::crypto::secretbox::Nonce::from_slice(n).unwrap();
    let k = sodiumoxide::crypto::secretbox::Key::from_slice(k).unwrap();
    match sodiumoxide::crypto::secretbox::open(c, &n, &k) {
        Ok(m) => Some(m),
        Err(()) => None,
    }
}

/// Relies on `sodiumoxide::crypto::sign::sign`: the signed message for `m`.
#[verifier::external_body]
pub(crate) fn sign(m: &[u8], sk: &[u8]) -> (r: Vec<u8>)
    requires
        sk@.len() == SIGN_SECRETKEYBYTES,
    ensures
        r@ == ed25519_sign_of(m@, sk@),
{
    let sk = sodiumoxide::crypto::sign::SecretKey::from_slice(sk).unwrap();
    sodiumoxide::crypto::sign::sign(m, &sk)
}

/// Relies on `sodiumoxide::crypto::sign::verify`: the message inside a signed message,
/// or an error when the signature fails verification.
#[verifier::external_body]
pub(crate) fn sign_verify(sm: &[u8], pk: &[u8]) -> (r: Option<Vec<u8>>)
    requires
        pk@.len() == SIGN_PUBLICKEYBYTES,
    ensures
        opt_bytes(r) == ed25519_open_of(sm@, pk@),
{
    let pk = sodiumoxide::crypto::sign::PublicKey::from_slice(pk).unwrap();
    match sodiumoxide::crypto::sign::verify(sm, &pk) {
        Ok(m) => Some(m),
        Err(()) => None,
    }
}

} // verus!
