//! The asymmetric-signature primitive, an external collaborator: ed25519 key
//! generation and signing come from biscuit_auth, verification from
//! ed25519_dalek (the implementation biscuit_auth itself signs with). The
//! library handles keys and signatures only as plain byte strings.

use vstd::prelude::*;
use crate::error::Error;

verus! {

/// The ed25519 public-key bytes derived from a 32-byte private-key seed.
/// Named, not stated: the derivation is a function of the seed alone.
pub uninterp spec fn public_of(sk: Seq<u8>) -> Seq<u8>;

/// Whether ed25519 strict verification accepts `sig` as a signature of `msg`
/// under the public key read from `pk`. Named, not stated: acceptance is a
/// function of the three byte strings alone.
pub uninterp spec fn sig_valid(pk: Seq<u8>, msg: Seq<u8>, sig: Seq<u8>) -> bool;

/// The ed25519 signature of `msg` under the seed `sk`. Named, not stated:
/// ed25519 signing is deterministic, a function of seed and message alone.
pub uninterp spec fn sig_of(sk: Seq<u8>, msg: Seq<u8>) -> Seq<u8>;

/// Relies on biscuit_auth's KeyPair::new_with_rng with the operating
/// system's randomness source: a fresh ed25519 private key is 32 bytes.
/// Nothing more is promised of a random value.
#[verifier::external_body]
fn generate_private_key() -> (r: Vec<u8>)
    ensures
        r@.len() == 32,
{
    let kp = biscuit_auth::KeyPair::new_with_rng(
        biscuit_auth::builder::Algorithm::Ed25519,
        &mut rand::rngs::OsRng,
    );
    kp.private().to_bytes().to_vec()
}

/// Relies on biscuit_auth's PrivateKey::from_bytes, KeyPair::from and
/// PublicKey::to_bytes: every 32-byte seed is a valid ed25519 private key,
/// and the public key is derived from the seed alone.
#[verifier::external_body]
fn derive_public_key(sk: &Vec<u8>) -> (r: Vec<u8>)
    requires
        sk@.len() == 32,
    ensures
        r@ == public_of(sk@),
{
    let key = biscuit_auth::PrivateKey::from_bytes(
        &sk[..],
        biscuit_auth::builder::Algorithm::Ed25519,
    ).expect("a 32-byte ed25519 seed is a valid private key");
    biscuit_auth::KeyPair::from(&key).public().to_bytes()
}

/// Relies on biscuit_auth's KeyPair::sign (ed25519): signing never fails in
/// this version (ed25519_dalek's try_sign is infallible), and a signature
/// honestly produced with a private key passes strict verification under the
/// public key derived from it.
#[verifier::external_body]
fn sign_bytes(sk: &Vec<u8>, msg: &Vec<u8>) -> (r: Result<Vec<u8>, Error>)
    requires
        sk@.len() == 32,
    ensures
        r is Ok,
        r matches Ok(sig) ==> sig@ == sig_of(sk@, msg@) && sig_valid(public_of(sk@), msg@, sig@),
{
    let key = biscuit_auth::PrivateKey::from_bytes(
        &sk[..],
        biscuit_auth::builder::Algorithm::Ed25519,
    ).expect("a 32-byte ed25519 seed is a valid private key");
    let kp = biscuit_auth::KeyPair::from(&key);
    match kp.sign(&msg[..]) {
        Ok(sig) => Ok(sig.to_bytes().to_vec()),
        Err(_) => Err(Error::InternalError),
    }
}

/// Relies on ed25519_dalek's VerifyingKey::verify_strict, the verification
/// biscuit_auth itself uses: a deterministic function of public key bytes,
/// message and signature bytes. Byte strings that are no valid key or
/// signature are accepted for no message.
#[verifier::external_body]
fn verify_bytes(pk: &Vec<u8>, msg: &Vec<u8>, sig: &Vec<u8>) -> (r: bool)
    ensures
        r == sig_valid(pk@, msg@, sig@),
{
    if pk.len() != 32 || sig.len() != 64 {
        return false;
    }
    let mut pk_arr = [0u8; 32];
    pk_arr.copy_from_slice(&pk[..]);
    let mut sig_arr = [0u8; 64];
    sig_arr.copy_from_slice(&sig[..]);
    let key = match ed25519_dalek::VerifyingKey::from_bytes(&pk_arr) {
        Ok(k) => k,
        Err(_) => return false,
    };
    let signature = ed25519_dalek::Signature::from_bytes(&sig_arr);
    key.verify_strict(&msg[..], &signature).is_ok()
}

/// A pair of cryptographic keys used to sign a token's blocks, held as the
/// 32-byte ed25519 private-key seed.
pub struct KeyPair {
    pub sk: Vec<u8>,
}

/// A public key, held as its 32-byte encoding.
pub struct PublicKey {
    pub pk: Vec<u8>,
}

impl KeyPair {
    /// A key pair is well formed when its seed has the ed25519 length.
    pub open spec fn wf(&self) -> bool {
        self.sk@.len() == 32
    }

    /// Draws a fresh key pair from the process-wide secure random source.
    pub fn new() -> (r: KeyPair)
        ensures
            r.wf(),
    {
        KeyPair { sk: generate_private_key() }
    }

    /// Rebuilds a key pair from its 32-byte private-key seed; any other
    /// length is rejected as malformed key material.
    pub fn from_bytes(slice: &Vec<u8>) -> (r: Result<KeyPair, Error>)
        ensures
            match r {
                Ok(kp) => kp.wf() && kp.sk@ == slice@,
                Err(e) => e == Error::InternalError && slice@.len() != 32,
            },
    {
        if slice.len() != 32 {
            return Err(Error::InternalError);
        }
        let mut sk: Vec<u8> = Vec::new();
        let n = slice.len();
        for i in 0..n
            invariant
                n == slice@.len(),
                sk@ =~= slice@.subrange(0, i as int),
        {
            sk.push(slice[i]);
            assert(sk@ =~= slice@.subrange(0, i as int + 1));
        }
        assert(sk@ =~= slice@);
        Ok(KeyPair { sk })
    }

    /// The private-key seed.
    pub fn to_bytes(&self) -> (r: &Vec<u8>)
        ensures
            r@ == self.sk@,
    {
        &self.sk
    }

    /// The public half of the pair.
    pub fn public_key(&self) -> (r: PublicKey)
        requires
            self.wf(),
        ensures
            r.pk@ == public_of(self.sk@),
    {
        PublicKey { pk: derive_public_key(&self.sk) }
    }

    /// Signs a message with the private key: the signature verifies under
    /// the pair's public key, and signing never fails.
    pub fn sign(&self, msg: &Vec<u8>) -> (r: Result<Vec<u8>, Error>)
        requires
            self.wf(),
        ensures
            r is Ok,
            r matches Ok(sig) ==> sig@ == sig_of(self.sk@, msg@) && sig_valid(
                public_of(self.sk@),
                msg@,
                sig@,
            ),
    {
        sign_bytes(&self.sk, msg)
    }
}

impl PublicKey {
    /// The public key's byte encoding.
    pub fn to_bytes(&self) -> (r: &Vec<u8>)
        ensures
            r@ == self.pk@,
    {
        &self.pk
    }

    /// Whether `sig` is a valid signature of `msg` under this key.
    pub fn verify(&self, msg: &Vec<u8>, sig: &Vec<u8>) -> (r: bool)
        ensures
            r == sig_valid(self.pk@, msg@, sig@),
    {
        verify_bytes(&self.pk, msg, sig)
    }
}

} // verus!
