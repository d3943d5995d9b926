//! A deterministic random-bit generator built on AES in counter mode
//! (CTR_DRBG without a derivation function).

use vstd::prelude::*;
use aes::cipher::{BlockEncrypt, KeyInit};
use aes::cipher::generic_array::GenericArray;

pub mod drbg;

verus! {

/// What AES-128 makes of one 16-byte block under a 16-byte key.
pub uninterp spec fn aes128_block(key: Seq<u8>, block: Seq<u8>) -> Seq<u8>;

/// What AES-192 makes of one 16-byte block under a 24-byte key.
pub uninterp spec fn aes192_block(key: Seq<u8>, block: Seq<u8>) -> Seq<u8>;

/// What AES-256 makes of one 16-byte block under a 32-byte key.
pub uninterp spec fn aes256_block(key: Seq<u8>, block: Seq<u8>) -> Seq<u8>;

/// Relies on aes::Aes128 (`KeyInit::new`, `BlockEncrypt::encrypt_block`):
/// encrypts one block; the result depends on key and block alone.
#[verifier::external_body]
pub(crate) fn aes128_encrypt(key: &[u8], block: [u8; 16]) -> (r: [u8; 16])
    requires
        key@.len() == 16,
    ensures
        r@ == aes128_block(key@, block@),
{
    let mut b = GenericArray::from(block);
    aes::Aes128::new(GenericArray::from_slice(key)).encrypt_block(&mut b);
    b.into()
}

/// Relies on aes::Aes192 (`KeyInit::new`, `BlockEncrypt::encrypt_block`):
/// encrypts one block; the result depends on key and block alone.
#[verifier::external_body]
pub(crate) fn aes192_encrypt(key: &[u8], block: [u8; 16]) -> (r: [u8; 16])
    requires
        key@.len() == 24,
    ensures
        r@ == aes192_block(key@, block@),
{
    let mut b = GenericArray::from(block);
    aes::Aes192::new(GenericArray::from_slice(key)).encrypt_block(&mut b);
    b.into()
}

/// Relies on aes::Aes256 (`KeyInit::new`, `BlockEncrypt::encrypt_block`):
/// encrypts one block; the result depends on key and block alone.
#[verifier::external_body]
pub(crate) fn aes256_encrypt(key: &[u8], block: [u8; 16]) -> (r: [u8; 16])
    requires
        key@.len() == 32,
    ensures
        r@ == aes256_block(key@, block@),
{
    let mut b = GenericArray::from(block);
    aes::Aes256::new(GenericArray::from_slice(key)).encrypt_block(&mut b);
    b.into()
}

} // verus!
