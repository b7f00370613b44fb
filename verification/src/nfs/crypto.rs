//! Encryption of NFS sectors.
//!
//! Each logical sector is encrypted by itself with AES-128-CBC. The key is the base title's
//! `htk.bin`; the IV is the sector number, big-endian, in the last four bytes.

use crate::aes_cbc::{cbc_decrypted, cbc_encrypted, decrypt, encrypt};
use crate::bytes::{be32, be32_bytes, be32_reads_back, zeros};
use vstd::prelude::*;

verus! {

/// The IV of a logical sector.
pub open spec fn iv_of(logical_sector: u32) -> Seq<u8> {
    zeros(12) + be32(logical_sector)
}

/// The IV of a logical sector.
pub fn sector_iv(logical_sector: u32) -> (r: [u8; 16])
    ensures
        r@ == iv_of(logical_sector),
{
    let n = be32_bytes(logical_sector);
    let r = [0u8, 0, 0, 0, 0, 0, 0, 0, 0, 0, 0, 0, n[0], n[1], n[2], n[3]];
    assert(r@ =~= iv_of(logical_sector));
    r
}

/// Different sectors have different IVs.
pub proof fn sectors_have_their_own_iv(a: u32, b: u32)
    requires
        iv_of(a) == iv_of(b),
    ensures
        a == b,
{
    be32_reads_back(a);
    be32_reads_back(b);
    assert(iv_of(a).skip(12) =~= be32(a));
    assert(iv_of(b).skip(12) =~= be32(b));
}

/// Encrypt one logical sector in place. Decrypting it as the same sector gives it back, and no other
/// sector number gives the same ciphertext.
pub fn encrypt_sector(key: &[u8; 16], logical_sector: u32, buf: &mut [u8])
    requires
        old(buf)@.len() % 16 == 0,
    ensures
        final(buf)@ == cbc_encrypted(key@, iv_of(logical_sector), old(buf)@),
        final(buf)@.len() == old(buf)@.len(),
        cbc_decrypted(key@, iv_of(logical_sector), final(buf)@) == old(buf)@,
        old(buf)@.len() > 0 ==> forall|other: u32|
            #[trigger] cbc_encrypted(key@, iv_of(other), old(buf)@) == final(buf)@ ==> other
                == logical_sector,
{
    let ghost plain = buf@;
    let iv = sector_iv(logical_sector);
    encrypt(key, &iv, buf);
    proof {
        if plain.len() > 0 {
            assert forall|other: u32|
                #[trigger] cbc_encrypted(key@, iv_of(other), plain) == buf@ implies other
                == logical_sector by {
                assert(iv_of(other).len() == 16);
                sectors_have_their_own_iv(other, logical_sector);
            }
        }
    }
}

/// Decrypt one logical sector in place. Encrypting it as the same sector gives it back.
pub fn decrypt_sector(key: &[u8; 16], logical_sector: u32, buf: &mut [u8])
    requires
        old(buf)@.len() % 16 == 0,
    ensures
        final(buf)@ == cbc_decrypted(key@, iv_of(logical_sector), old(buf)@),
        final(buf)@.len() == old(buf)@.len(),
        cbc_encrypted(key@, iv_of(logical_sector), final(buf)@) == old(buf)@,
{
    let iv = sector_iv(logical_sector);
    decrypt(key, &iv, buf);
}

/// The IV of a sector is its number in big-endian bytes at the end of sixteen, and zeros before them.
pub proof fn iv_is_the_sector_number(logical_sector: u32)
    ensures
        ({
            let iv = iv_of(logical_sector);
            &&& iv.len() == 16
            &&& forall|i: int| 0 <= i < 12 ==> #[trigger] iv[i] == 0
            &&& iv[12] * 0x100_0000 + iv[13] * 0x1_0000 + iv[14] * 0x100 + iv[15] == logical_sector
        }),
{
    crate::bytes::big_endian_is_positional(logical_sector as u64);
    let (iv, n) = (iv_of(logical_sector), be32(logical_sector));
    assert(iv[12] == n[0] && iv[13] == n[1] && iv[14] == n[2] && iv[15] == n[3]);
}

} // verus!
