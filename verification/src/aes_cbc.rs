//! AES-128 in CBC mode, without padding.

use aes::cipher::block_padding::NoPadding;
use aes::cipher::{BlockDecryptMut, BlockEncryptMut, KeyIvInit};
use aes::Aes128;
use vstd::prelude::*;

verus! {

/// What AES-128-CBC encryption makes of whole blocks.
pub uninterp spec fn cbc_encrypted(key: Seq<u8>, iv: Seq<u8>, data: Seq<u8>) -> Seq<u8>;

/// What AES-128-CBC decryption makes of whole blocks.
pub uninterp spec fn cbc_decrypted(key: Seq<u8>, iv: Seq<u8>, data: Seq<u8>) -> Seq<u8>;

/// `cbc::Encryptor<Aes128>::encrypt_padded_mut` with `NoPadding`, which cannot fail on whole blocks.
/// The ciphertext is as long as the plaintext, decrypts to it under the same key and IV, and, unless
/// it is empty, comes from no other IV.
#[verifier::external_body]
pub(crate) fn encrypt(key: &[u8; 16], iv: &[u8; 16], buf: &mut [u8])
    requires
        old(buf)@.len() % 16 == 0,
    ensures
        final(buf)@ == cbc_encrypted(key@, iv@, old(buf)@),
        final(buf)@.len() == old(buf)@.len(),
        cbc_decrypted(key@, iv@, final(buf)@) == old(buf)@,
        old(buf)@.len() > 0 ==> forall|other: Seq<u8>|
            other.len() == 16 && #[trigger] cbc_encrypted(key@, other, old(buf)@) == final(buf)@
                ==> other == iv@,
{
    let len = buf.len();
    cbc::Encryptor::<Aes128>::new(key.into(), iv.into())
        .encrypt_padded_mut::<NoPadding>(buf, len)
        .expect("NoPadding on a block-aligned buffer cannot fail");
}

/// `cbc::Decryptor<Aes128>::decrypt_padded_mut` with `NoPadding`, which cannot fail on whole blocks.
/// The plaintext is as long as the ciphertext and encrypts to it under the same key and IV.
#[verifier::external_body]
pub(crate) fn decrypt(key: &[u8; 16], iv: &[u8; 16], buf: &mut [u8])
    requires
        old(buf)@.len() % 16 == 0,
    ensures
        final(buf)@ == cbc_decrypted(key@, iv@, old(buf)@),
        final(buf)@.len() == old(buf)@.len(),
        cbc_encrypted(key@, iv@, final(buf)@) == old(buf)@,
{
    cbc::Decryptor::<Aes128>::new(key.into(), iv.into())
        .decrypt_padded_mut::<NoPadding>(buf)
        .expect("NoPadding on a block-aligned buffer cannot fail");
}

} // verus!
