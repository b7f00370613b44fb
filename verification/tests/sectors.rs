use wiivci_core::nfs::crypto::{decrypt_sector, encrypt_sector, sector_iv};

#[test]
fn iv_places_sector_in_low_bytes_big_endian() {
    assert_eq!(sector_iv(0), [0u8; 16]);
    let iv = sector_iv(0x1F00);
    assert_eq!(&iv[0..12], &[0u8; 12]);
    assert_eq!(&iv[12..16], &[0x00, 0x00, 0x1F, 0x00]);
    assert_eq!(&sector_iv(1)[12..16], &[0, 0, 0, 1]);
}

#[test]
fn encrypt_decrypt_round_trips() {
    let key = [0x11u8; 16];
    let original: Vec<u8> = (0..0x8000).map(|i| (i * 7) as u8).collect();
    let mut buf = original.clone();
    encrypt_sector(&key, 42, &mut buf);
    assert_ne!(buf, original);
    decrypt_sector(&key, 42, &mut buf);
    assert_eq!(buf, original);
}

#[test]
fn different_sectors_produce_different_ciphertext() {
    let key = [0x22u8; 16];
    let plain = [0u8; 32];
    let mut a = plain;
    let mut b = plain;
    encrypt_sector(&key, 1, &mut a);
    encrypt_sector(&key, 2, &mut b);
    assert_ne!(a, b, "IV differs by sector so ciphertext must differ");
}

#[test]
fn known_ciphertext() {
    // AES-128 of the all-zero block under the all-zero key.
    let mut buf = [0u8; 16];
    encrypt_sector(&[0u8; 16], 0, &mut buf);
    assert_eq!(
        buf,
        [
            0x66, 0xE9, 0x4B, 0xD4, 0xEF, 0x8A, 0x2C, 0x3B, 0x88, 0x4C, 0xFA, 0x59, 0xCA, 0x34,
            0x2B, 0x2E
        ]
    );
}

#[test]
fn an_empty_buffer_stays_empty() {
    let mut buf: [u8; 0] = [];
    encrypt_sector(&[1u8; 16], 3, &mut buf);
    decrypt_sector(&[1u8; 16], 3, &mut buf);
    assert_eq!(buf.len(), 0);
}
