use image::{ImageBuffer, ImageFormat, Rgba};
use std::io::Cursor;
use wiivci_core::assets::images::{encode_tga, png_to_tga, BootTexture};

fn png_of(width: u32, height: u32, pixel: impl Fn(u32, u32) -> [u8; 4]) -> Vec<u8> {
    let img: ImageBuffer<Rgba<u8>, Vec<u8>> =
        ImageBuffer::from_fn(width, height, |x, y| Rgba(pixel(x, y)));
    let mut bytes = Vec::new();
    img.write_to(&mut Cursor::new(&mut bytes), ImageFormat::Png)
        .expect("encode png");
    bytes
}

fn solid_red_png() -> Vec<u8> {
    png_of(4, 4, |_, _| [255, 0, 0, 255])
}

fn assert_header(data: &[u8], tex: BootTexture) {
    let (w, h) = tex.dims();
    let bpp = tex.bpp();
    assert_eq!(data[0], 0, "id length");
    assert_eq!(data[1], 0, "color map type");
    assert_eq!(data[2], 2, "image type");
    assert_eq!(&data[3..8], &[0u8; 5], "color map spec");
    assert_eq!(u16::from_le_bytes([data[8], data[9]]), 0, "x origin");
    assert_eq!(u16::from_le_bytes([data[10], data[11]]), 0, "y origin");
    assert_eq!(u16::from_le_bytes([data[12], data[13]]), w as u16, "width");
    assert_eq!(u16::from_le_bytes([data[14], data[15]]), h as u16, "height");
    assert_eq!(data[16], bpp, "bpp");
    let expected_desc = if bpp == 32 { 0x08 } else { 0x00 };
    assert_eq!(data[17], expected_desc, "image descriptor");

    let expected_len = 18 + (w as usize * h as usize * (bpp as usize / 8)) + 26;
    assert_eq!(data.len(), expected_len, "total length");

    let footer = &data[data.len() - 18..];
    assert_eq!(footer, b"TRUEVISION-XFILE.\0", "footer signature");
}

#[test]
fn icon_texture_matches_format() {
    let png = solid_red_png();
    let tga = png_to_tga(&png, BootTexture::Icon).expect("convert");
    assert_header(&tga, BootTexture::Icon);
    assert_eq!(&tga[18..22], &[0x00, 0x00, 0xFF, 0xFF]);
}

#[test]
fn boot_tv_texture_matches_format() {
    let png = solid_red_png();
    let tga = png_to_tga(&png, BootTexture::BootTv).expect("convert");
    assert_header(&tga, BootTexture::BootTv);
    assert_eq!(&tga[18..21], &[0x00, 0x00, 0xFF]);
}

#[test]
fn boot_drc_texture_matches_format() {
    let png = solid_red_png();
    let tga = png_to_tga(&png, BootTexture::BootDrc).expect("convert");
    assert_header(&tga, BootTexture::BootDrc);
    assert_eq!(&tga[18..21], &[0x00, 0x00, 0xFF]);
}

#[test]
fn boot_logo_texture_matches_format() {
    let png = solid_red_png();
    let tga = png_to_tga(&png, BootTexture::BootLogo).expect("convert");
    assert_header(&tga, BootTexture::BootLogo);
    assert_eq!(&tga[18..22], &[0x00, 0x00, 0xFF, 0xFF]);
}

/// CRC-32 over `data`, so that the header below is a valid chunk.
fn crc32(data: &[u8]) -> u32 {
    let mut crc = 0xFFFF_FFFFu32;
    for &b in data {
        crc ^= b as u32;
        for _ in 0..8 {
            crc = if crc & 1 != 0 {
                (crc >> 1) ^ 0xEDB8_8320
            } else {
                crc >> 1
            };
        }
    }
    !crc
}

/// A PNG signature and a well-formed IHDR, and nothing else.
fn png_header_declaring(width: u32, height: u32) -> Vec<u8> {
    let mut ihdr = Vec::new();
    ihdr.extend_from_slice(b"IHDR");
    ihdr.extend_from_slice(&width.to_be_bytes());
    ihdr.extend_from_slice(&height.to_be_bytes());
    ihdr.extend_from_slice(&[8, 2, 0, 0, 0]);
    let mut out = Vec::new();
    out.extend_from_slice(&[0x89, b'P', b'N', b'G', 0x0D, 0x0A, 0x1A, 0x0A]);
    out.extend_from_slice(&13u32.to_be_bytes());
    out.extend_from_slice(&ihdr);
    out.extend_from_slice(&crc32(&ihdr).to_be_bytes());
    out
}

#[test]
fn oversized_png_header_is_rejected_by_the_decode_limits() {
    let png = png_header_declaring(60_000, 60_000);
    let err =
        png_to_tga(&png, BootTexture::Icon).expect_err("a 60000x60000 PNG must not be decoded");
    let msg = err.message();
    assert!(
        msg.contains("exceeds limit"),
        "the rejection must come from the decode limits, not from the truncated data: {msg}"
    );
}

#[test]
fn small_real_png_still_converts_under_the_limits() {
    let png = png_of(2, 2, |_, _| [0, 255, 0, 255]);
    let tga = png_to_tga(&png, BootTexture::Icon).expect("a 2x2 PNG must convert");
    assert_header(&tga, BootTexture::Icon);
    assert_eq!(&tga[18..22], &[0x00, 0xFF, 0x00, 0xFF]);
}

#[test]
fn filenames_match_console_expectations() {
    assert_eq!(BootTexture::Icon.filename(), "iconTex.tga");
    assert_eq!(BootTexture::BootTv.filename(), "bootTvTex.tga");
    assert_eq!(BootTexture::BootDrc.filename(), "bootDrcTex.tga");
    assert_eq!(BootTexture::BootLogo.filename(), "bootLogoTex.tga");
}

#[test]
fn artwork_of_the_right_size_is_taken_pixel_by_pixel() {
    let pixel = |x: u32, y: u32| [x as u8, y as u8, (x ^ y) as u8, (x + y) as u8];
    let tga = png_to_tga(&png_of(128, 128, pixel), BootTexture::Icon).unwrap();
    for y in 0..128u32 {
        for x in 0..128u32 {
            // The rows come from the bottom up, each pixel as blue, green, red and alpha.
            let at = 18 + ((127 - y) * 128 + x) as usize * 4;
            let [r, g, b, a] = pixel(x, y);
            assert_eq!(&tga[at..at + 4], &[b, g, r, a]);
        }
    }
}

#[test]
fn garbage_is_no_artwork() {
    let err = png_to_tga(b"not a png", BootTexture::BootTv).unwrap_err().message();
    assert!(err.starts_with("failed to decode PNG: "), "{err}");
}

#[test]
fn encoding_keeps_every_pixel() {
    let (w, h) = BootTexture::BootLogo.dims();
    let rgba: Vec<u8> = (0..w * h * 4).map(|i| (i % 251) as u8).collect();
    let tga = encode_tga(BootTexture::BootLogo, &rgba);
    assert_header(&tga, BootTexture::BootLogo);
    let last_row = ((h - 1) * w * 4) as usize;
    assert_eq!(tga[18], rgba[last_row + 2]);
    assert_eq!(tga[21], rgba[last_row + 3]);
}
