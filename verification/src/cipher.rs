//! Single-block AES, through the `aes` crate.
//!
//! Each function keys a cipher with `key` and transforms one sixteen-byte
//! block. What AES computes is not restated here: each result is named by a
//! function of the key and block bytes alone.

use aes::cipher::generic_array::GenericArray;
use aes::cipher::{BlockDecrypt, BlockEncrypt, KeyInit};
use aes::{Aes128, Aes192, Aes256};
use vstd::prelude::*;

verus! {

/// AES-128 encryption of `block` under `key`.
pub uninterp spec fn aes128_encrypt(key: Seq<u8>, block: Seq<u8>) -> Seq<u8>;

/// AES-128 decryption of `block` under `key`.
pub uninterp spec fn aes128_decrypt(key: Seq<u8>, block: Seq<u8>) -> Seq<u8>;

/// AES-192 encryption of `block` under `key`.
pub uninterp spec fn aes192_encrypt(key: Seq<u8>, block: Seq<u8>) -> Seq<u8>;

/// AES-192 decryption of `block` under `key`.
pub uninterp spec fn aes192_decrypt(key: Seq<u8>, block: Seq<u8>) -> Seq<u8>;

/// AES-256 encryption of `block` under `key`.
pub uninterp spec fn aes256_encrypt(key: Seq<u8>, block: Seq<u8>) -> Seq<u8>;

/// AES-256 decryption of `block` under `key`.
pub uninterp spec fn aes256_decrypt(key: Seq<u8>, block: Seq<u8>) -> Seq<u8>;

/// `Aes128::new(key)` then `encrypt_block` on a copy of `block` (the lengths are
/// required, so the slice conversions cannot fail).
/// Claimed: the sixteen output bytes depend on the key and block bytes alone.
#[verifier::external_body]
pub(crate) fn aes128_encrypt_block(key: &[u8], block: &[u8]) -> (r: [u8; 16])
    requires
        key@.len() == 16,
        block@.len() == 16,
    ensures
        r@ == aes128_encrypt(key@, block@),
{
    let mut b = GenericArray::clone_from_slice(block);
    Aes128::new(GenericArray::from_slice(key)).encrypt_block(&mut b);
    b.into()
}

/// `Aes128::new(key)` then `decrypt_block` on a copy of `block` (the lengths are
/// required, so the slice conversions cannot fail).
/// Claimed: the sixteen output bytes depend on the key and block bytes alone.
#[verifier::external_body]
pub(crate) fn aes128_decrypt_block(key: &[u8], block: &[u8]) -> (r: [u8; 16])
    requires
        key@.len() == 16,
        block@.len() == 16,
    ensures
        r@ == aes128_decrypt(key@, block@),
{
    let mut b = GenericArray::clone_from_slice(block);
    Aes128::new(GenericArray::from_slice(key)).decrypt_block(&mut b);
    b.into()
}

/// `Aes192::new(key)` then `encrypt_block` on a copy of `block` (the lengths are
/// required, so the slice conversions cannot fail).
/// Claimed: the sixteen output bytes depend on the key and block bytes alone.
#[verifier::external_body]
pub(crate) fn aes192_encrypt_block(key: &[u8], block: &[u8]) -> (r: [u8; 16])
    requires
        key@.len() == 24,
        block@.len() == 16,
    ensures
        r@ == aes192_encrypt(key@, block@),
{
    let mut b = GenericArray::clone_from_slice(block);
    Aes192::new(GenericArray::from_slice(key)).encrypt_block(&mut b);
    b.into()
}

/// `Aes192::new(key)` then `decrypt_block` on a copy of `block` (the lengths are
/// required, so the slice conversions cannot fail).
/// Claimed: the sixteen output bytes depend on the key and block bytes alone.
#[verifier::external_body]
pub(crate) fn aes192_decrypt_block(key: &[u8], block: &[u8]) -> (r: [u8; 16])
    requires
        key@.len() == 24,
        block@.len() == 16,
    ensures
        r@ == aes192_decrypt(key@, block@),
{
    let mut b = GenericArray::clone_from_slice(block);
    Aes192::new(GenericArray::from_slice(key)).decrypt_block(&mut b);
    b.into()
}

/// `Aes256::new(key)` then `encrypt_block` on a copy of `block` (the lengths are
/// required, so the slice conversions cannot fail).
/// Claimed: the sixteen output bytes depend on the key and block bytes alone.
#[verifier::external_body]
pub(crate) fn aes256_encrypt_block(key: &[u8], block: &[u8]) -> (r: [u8; 16])
    requires
        key@.len() == 32,
        block@.len() == 16,
    ensures
        r@ == aes256_encrypt(key@, block@),
{
    let mut b = GenericArray::clone_from_slice(block);
    Aes256::new(GenericArray::from_slice(key)).encrypt_block(&mut b);
    b.into()
}

/// `Aes256::new(key)` then `decrypt_block` on a copy of `block` (the lengths are
/// required, so the slice conversions cannot fail).
/// Claimed: the sixteen output bytes depend on the key and block bytes alone.
#[verifier::external_body]
pub(crate) fn aes256_decrypt_block(key: &[u8], block: &[u8]) -> (r: [u8; 16])
    requires
        key@.len() == 32,
        block@.len() == 16,
    ensures
        r@ == aes256_decrypt(key@, block@),
{
    let mut b = GenericArray::clone_from_slice(block);
    Aes256::new(GenericArray::from_slice(key)).decrypt_block(&mut b);
    b.into()
}

} // verus!
