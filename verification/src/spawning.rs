//! Child agents: their lifecycle states and the wallet address each is
//! given.

use k256::ecdsa::SigningKey;
use sha3::{Digest, Keccak256};
use vstd::prelude::*;

use crate::prompt::{hex_encode, hex_lower, lemma_hex_lower_len};
use crate::random::os_random_bytes;
use crate::text::{from_chars, push_str, to_chars};

verus! {

broadcast use vstd::string::group_string_axioms;

/// Status of a spawned child agent.
#[derive(Debug, Clone, Copy, PartialEq, Eq, Structural)]
pub enum SpawnStatus {
    Provisioning,
    Running,
    Completed,
    Failed,
    TimedOut,
    Reclaimed,
}

pub open spec fn status_name(s: SpawnStatus) -> Seq<char> {
    match s {
        SpawnStatus::Provisioning => "provisioning"@,
        SpawnStatus::Running => "running"@,
        SpawnStatus::Completed => "completed"@,
        SpawnStatus::Failed => "failed"@,
        SpawnStatus::TimedOut => "timed_out"@,
        SpawnStatus::Reclaimed => "reclaimed"@,
    }
}

impl SpawnStatus {
    /// The name the status is shown under.
    pub fn to_display_string(&self) -> (r: String)
        ensures
            r@ == status_name(*self),
    {
        match self {
            SpawnStatus::Provisioning => "provisioning".to_owned(),
            SpawnStatus::Running => "running".to_owned(),
            SpawnStatus::Completed => "completed".to_owned(),
            SpawnStatus::Failed => "failed".to_owned(),
            SpawnStatus::TimedOut => "timed_out".to_owned(),
            SpawnStatus::Reclaimed => "reclaimed".to_owned(),
        }
    }
}

/// Keccak-256 of the bytes, as `sha3::Keccak256` computes it.
pub uninterp spec fn keccak256(data: Seq<u8>) -> Seq<u8>;

/// Calls `Keccak256::digest`: the 32-byte Keccak-256 hash.
#[verifier::external_body]
fn keccak256_digest(data: &[u8]) -> (r: Vec<u8>)
    ensures
        r@ == keccak256(data@),
        r@.len() == 32,
{
    Keccak256::digest(data).to_vec()
}

/// The uncompressed SEC1 public key of the secp256k1 secret key with the
/// given 32 bytes, when they are a valid secret (a scalar neither zero nor
/// beyond the group order).
pub uninterp spec fn sec1_public_key(secret: Seq<u8>) -> Option<Seq<u8>>;

/// Calls `SigningKey::from_slice` and, for a valid secret, `verifying_key`
/// and `to_encoded_point(false)`: the uncompressed SEC1 encoding of the
/// public key, which is 65 bytes starting with the tag `0x04`.
#[verifier::external_body]
fn public_key_of(secret: &[u8]) -> (r: Option<Vec<u8>>)
    requires
        secret@.len() == 32,
    ensures
        match r {
            Some(v) => sec1_public_key(secret@) == Some(v@) && v@.len() == 65 && v@[0] == 4,
            None => sec1_public_key(secret@) is None,
        },
{
    match SigningKey::from_slice(secret) {
        Ok(key) => Some(key.verifying_key().to_encoded_point(false).as_bytes().to_vec()),
        Err(_) => None,
    }
}

/// The Ethereum-style address of an uncompressed SEC1 public key: "0x" and
/// the hex of the last 20 bytes of the Keccak-256 hash of the key without
/// its tag byte.
pub open spec fn address_of(pubkey: Seq<u8>) -> Seq<char> {
    "0x"@ + hex_lower(keccak256(pubkey.skip(1)).skip(12))
}

/// The address of a public key given in SEC1 encoding.
pub fn child_address_of(pubkey: &[u8]) -> (r: String)
    requires
        pubkey@.len() >= 1,
    ensures
        r@ == address_of(pubkey@),
        r@.len() == 42,
{
    let body = crate::text::sub_bytes(pubkey, 1, pubkey.len());
    let hash = keccak256_digest(body.as_slice());
    let addr = crate::text::sub_bytes(hash.as_slice(), 12, 32);
    assert(addr@ =~= keccak256(pubkey@.skip(1)).skip(12)) by {
        assert(body@ =~= pubkey@.skip(1));
    }
    let hex = hex_encode(addr.as_slice());
    proof {
        lemma_hex_lower_len(addr@);
        reveal_strlit("0x");
    }
    let mut out: Vec<char> = Vec::new();
    push_str(&mut out, "0x");
    push_str(&mut out, hex.as_str());
    from_chars(out.as_slice())
}

/// The wallet address for the secret key with the given 32 bytes: the
/// address of its public key, or `None` when the bytes are no valid secret.
pub fn child_address_from_secret(secret: &[u8]) -> (r: Option<String>)
    requires
        secret@.len() == 32,
    ensures
        match sec1_public_key(secret@) {
            Some(pk) => r matches Some(a) && a@ == address_of(pk) && a@.len() == 42,
            None => r is None,
        },
{
    match public_key_of(secret) {
        Some(pk) => Some(child_address_of(pk.as_slice())),
        None => None,
    }
}

/// A fresh wallet address for a child agent, from a secret key of 32 bytes
/// drawn from the system's random source; `None` when that source fails or
/// the bytes drawn are no valid secret.
pub fn derive_child_address() -> (r: Option<String>)
    ensures
        r matches Some(a) ==> a@.len() == 42 && exists|secret: Seq<u8>, pk: Seq<u8>|
            secret.len() == 32 && sec1_public_key(secret) == Some(pk) && a@ == address_of(pk),
{
    match os_random_bytes(32) {
        Some(secret) => child_address_from_secret(secret.as_slice()),
        None => None,
    }
}

} // verus!
