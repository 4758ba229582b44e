use vstd::prelude::*;
use crate::app_error::AppError;
use sha3::Digest;

verus! {

/// The Keccak-256 digest of a byte sequence, as the sha3 crate computes
/// it. The digest is a function of the input bytes alone; stating its
/// value in full would amount to transcribing the Keccak permutation, so
/// only the name stands, applied by the trusted wrapper below.
pub uninterp spec fn keccak256_of(s: Seq<u8>) -> Seq<u8>;

/// Relies on sha3::Keccak256 through the Digest trait: the digest is
/// always 32 bytes and depends on the input bytes alone, so copying it
/// into a 32-byte array cannot fail.
#[verifier::external_body]
fn keccak256(data: &[u8]) -> (r: Result<[u8; 32], AppError>)
    ensures
        r is Ok,
        r matches Ok(d) ==> d@ == keccak256_of(data@),
{
    let mut hasher = sha3::Keccak256::new();
    hasher.update(data);
    let digest = hasher.finalize();
    match digest.as_slice().try_into() {
        Ok(out) => Ok(out),
        Err(_) => Err(AppError::TryFromSliceError),
    }
}

/// The strong checksum over a byte window: a 32-byte cryptographic digest.
pub trait Sha3 {
    fn hash(&self) -> Result<[u8; 32], AppError>;
}

impl Sha3 for [u8] {
    fn hash(&self) -> (r: Result<[u8; 32], AppError>)
        ensures
            r is Ok,
            r matches Ok(d) ==> d@ == keccak256_of(self@),
    {
        keccak256(self)
    }
}

} // verus!
