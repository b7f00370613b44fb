//! Boot textures: PNG artwork as the raw TGA files that the Wii U menu loads.

use crate::bytes::append_bytes;
use crate::error::{Error, ErrorView};
use crate::text::{ascii, ascii_of, joined};
use image::imageops::FilterType;
use image::{DynamicImage, ImageReader, Limits};
use std::io::Cursor;
use vstd::prelude::*;

verus! {

/// A texture that a title carries in `meta/`.
#[derive(Clone, Copy, Debug, PartialEq, Eq, Structural)]
pub enum BootTexture {
    /// The icon in the Wii U menu.
    Icon,
    /// The boot splash on the TV.
    BootTv,
    /// The boot splash on the GamePad.
    BootDrc,
    /// The logo shown during boot.
    BootLogo,
}

impl BootTexture {
    /// The width of the texture.
    pub open spec fn width(self) -> u32 {
        match self {
            BootTexture::Icon => 128,
            BootTexture::BootTv => 1280,
            BootTexture::BootDrc => 854,
            BootTexture::BootLogo => 170,
        }
    }

    /// The height of the texture.
    pub open spec fn height(self) -> u32 {
        match self {
            BootTexture::Icon => 128,
            BootTexture::BootTv => 720,
            BootTexture::BootDrc => 480,
            BootTexture::BootLogo => 42,
        }
    }

    /// Whether the texture has an alpha channel.
    pub open spec fn has_alpha(self) -> bool {
        self == BootTexture::Icon || self == BootTexture::BootLogo
    }

    /// The name of the texture's file.
    pub open spec fn file(self) -> Seq<char> {
        match self {
            BootTexture::Icon => "iconTex.tga"@,
            BootTexture::BootTv => "bootTvTex.tga"@,
            BootTexture::BootDrc => "bootDrcTex.tga"@,
            BootTexture::BootLogo => "bootLogoTex.tga"@,
        }
    }

    /// Width and height of the texture.
    pub fn dims(self) -> (r: (u32, u32))
        ensures
            r == (self.width(), self.height()),
    {
        match self {
            BootTexture::Icon => (128, 128),
            BootTexture::BootTv => (1280, 720),
            BootTexture::BootDrc => (854, 480),
            BootTexture::BootLogo => (170, 42),
        }
    }

    /// Bits per pixel: 32 with an alpha channel, else 24.
    pub fn bpp(self) -> (r: u8)
        ensures
            r == if self.has_alpha() {
                32u8
            } else {
                24u8
            },
    {
        match self {
            BootTexture::Icon | BootTexture::BootLogo => 32,
            BootTexture::BootTv | BootTexture::BootDrc => 24,
        }
    }

    /// The name of the texture's file in `meta/`.
    pub fn filename(self) -> (r: &'static str)
        ensures
            r@ == self.file(),
    {
        match self {
            BootTexture::Icon => "iconTex.tga",
            BootTexture::BootTv => "bootTvTex.tga",
            BootTexture::BootDrc => "bootDrcTex.tga",
            BootTexture::BootLogo => "bootLogoTex.tga",
        }
    }
}

/// Largest width or height of artwork that is decoded.
pub const MAX_SOURCE_DIM: u32 = 8192;

/// Most bytes that decoding artwork may allocate.
pub const MAX_DECODE_ALLOC: u64 = 0x1000_0000;

#[verifier::external_type_specification]
#[verifier::external_body]
pub struct ExDynamicImage(DynamicImage);

/// The pixels of an image as 8-bit RGBA samples, row by row from the top.
pub uninterp spec fn image_pixels(img: DynamicImage) -> Seq<u8>;

/// Width and height of an image.
pub uninterp spec fn image_size(img: DynamicImage) -> (u32, u32);

/// What decoding gives under limits: width, height and pixels, or the text of the error.
pub uninterp spec fn decoded(bytes: Seq<u8>, max_dim: u32, max_alloc: u64) -> Result<
    (u32, u32, Seq<u8>),
    Seq<char>,
>;

/// A filter that images are resampled with.
#[derive(Clone, Copy, Debug, PartialEq, Eq, Structural)]
pub enum Filter {
    Nearest,
    Triangle,
    CatmullRom,
    Gaussian,
    Lanczos3,
}

/// `out` is what resampling with a filter may make of an image of this size with these pixels.
pub uninterp spec fn resampled(
    pixels: Seq<u8>,
    size: (u32, u32),
    to: (u32, u32),
    filter: Filter,
    out: Seq<u8>,
) -> bool;

/// `image::ImageReader::decode`, with the format that `image::guess_format` takes from the first
/// bytes, and with limits. What comes out depends on the bytes and the limits alone. An image that
/// comes out is within the limit of the dimensions.
#[verifier::external_body]
fn decode_limited(bytes: &[u8], max_dim: u32, max_alloc: u64) -> (r: Result<DynamicImage, String>)
    requires
        max_dim <= 8192,
        max_alloc <= 0x1000_0000,
    ensures
        match r {
            Ok(img) => decoded(bytes@, max_dim, max_alloc) == Ok::<(u32, u32, Seq<u8>), Seq<char>>(
                (image_size(img).0, image_size(img).1, image_pixels(img)),
            ) && image_size(img).0 <= max_dim && image_size(img).1 <= max_dim,
            Err(m) => decoded(bytes@, max_dim, max_alloc) == Err::<(u32, u32, Seq<u8>), Seq<char>>(
                m@,
            ),
        },
{
    let mut limits = Limits::default();
    limits.max_image_width = Some(max_dim);
    limits.max_image_height = Some(max_dim);
    limits.max_alloc = Some(max_alloc);
    let format = image::guess_format(bytes).map_err(|e| e.to_string())?;
    let mut reader = ImageReader::with_format(Cursor::new(bytes), format);
    reader.limits(limits);
    reader.decode().map_err(|e| e.to_string())
}

/// `image::DynamicImage::resize_exact` with the filter of that name, and `to_rgba8` of what it gives:
/// four samples for each pixel of the size that was asked for. An image that has the size already
/// is copied. Any other is resampled; that goes through floating-point functions of the machine, so
/// of the samples is said only what they were made from.
#[verifier::external_body]
fn resize_to_rgba8(img: &DynamicImage, width: u32, height: u32, filter: Filter) -> (r: Vec<u8>)
    requires
        0 < width <= 8192,
        0 < height <= 8192,
        image_size(*img).0 <= 8192,
        image_size(*img).1 <= 8192,
    ensures
        r@.len() == width * height * 4,
        image_size(*img) == (width, height) ==> r@ == image_pixels(*img),
        resampled(image_pixels(*img), image_size(*img), (width, height), filter, r@),
{
    let filter = match filter {
        Filter::Nearest => FilterType::Nearest,
        Filter::Triangle => FilterType::Triangle,
        Filter::CatmullRom => FilterType::CatmullRom,
        Filter::Gaussian => FilterType::Gaussian,
        Filter::Lanczos3 => FilterType::Lanczos3,
    };
    img.resize_exact(width, height, filter).to_rgba8().into_raw()
}

/// Bytes per pixel of a texture.
pub open spec fn pixel_len(tex: BootTexture) -> int {
    if tex.has_alpha() {
        4
    } else {
        3
    }
}

/// Where pixel `p` of a texture begins in its RGBA samples: the rows come from the bottom up.
pub open spec fn sample_at(tex: BootTexture, p: int) -> int {
    let w = tex.width() as int;
    ((tex.height() - 1 - p / w) * w + p % w) * 4
}

/// The bytes of a pixel whose RGBA samples begin at `at`: blue, green, red and, with an alpha
/// channel, alpha.
pub open spec fn pixel_bytes(tex: BootTexture, rgba: Seq<u8>, at: int) -> Seq<u8> {
    if tex.has_alpha() {
        seq![rgba[at + 2], rgba[at + 1], rgba[at], rgba[at + 3]]
    } else {
        seq![rgba[at + 2], rgba[at + 1], rgba[at]]
    }
}

/// The first `n` pixels of a texture.
pub open spec fn pixel_data(tex: BootTexture, rgba: Seq<u8>, n: int) -> Seq<u8>
    decreases n,
{
    if n <= 0 {
        Seq::empty()
    } else {
        pixel_data(tex, rgba, n - 1) + pixel_bytes(tex, rgba, sample_at(tex, n - 1))
    }
}

/// The two little-endian bytes of `v`.
pub open spec fn le16(v: int) -> Seq<u8> {
    seq![(v % 0x100) as u8, (v / 0x100 % 0x100) as u8]
}

/// The header of a texture file.
pub open spec fn tga_header(tex: BootTexture) -> Seq<u8> {
    seq![0u8, 0, 2, 0, 0, 0, 0, 0, 0, 0, 0, 0] + le16(tex.width() as int) + le16(
        tex.height() as int,
    ) + seq![
        (pixel_len(tex) * 8) as u8,
        if tex.has_alpha() {
            0x08u8
        } else {
            0x00u8
        },
    ]
}

/// A texture file: an uncompressed, bottom-up TGA.
pub open spec fn tga_image(tex: BootTexture, rgba: Seq<u8>) -> Seq<u8> {
    tga_header(tex) + pixel_data(tex, rgba, tex.width() * tex.height()) + crate::bytes::zeros(8)
        + ascii("TRUEVISION-XFILE."@) + seq![0u8]
}

proof fn lemma_pixel_place(w: int, h: int, p: int)
    requires
        0 < w,
        0 < h,
        0 <= p < w * h,
    ensures
        0 <= p / w < h,
        0 <= p % w < w,
        0 <= (h - 1 - p / w) * w + p % w < w * h,
{
    vstd::arithmetic::div_mod::lemma_fundamental_div_mod(p, w);
    let q = p / w;
    let r = p % w;
    assert(0 <= r < w) by (nonlinear_arith)
        requires
            r == p % w,
            w > 0,
    ;
    assert(0 <= q < h) by (nonlinear_arith)
        requires
            p == w * q + r,
            0 <= r < w,
            0 <= p < w * h,
            w > 0,
            h > 0,
    ;
    assert(0 <= (h - 1 - q) * w + r < w * h) by (nonlinear_arith)
        requires
            0 <= q < h,
            0 <= r < w,
            w > 0,
    ;
}

/// Encode RGBA pixels as a texture file.
pub fn encode_tga(tex: BootTexture, rgba: &[u8]) -> (r: Vec<u8>)
    requires
        rgba@.len() == tex.width() * tex.height() * 4,
    ensures
        r@ == tga_image(tex, rgba@),
{
    let (width, height) = tex.dims();
    let bpp = tex.bpp();
    let w = width as usize;
    let h = height as usize;
    let len: usize = if bpp == 32 {
        4
    } else {
        3
    };
    assert(w * h <= 921600) by {
        assert(tex.width() * tex.height() <= 921600);
    }
    let total = w * h;
    let mut pixels: Vec<u8> = Vec::new();
    let mut p: usize = 0;
    while p < total
        invariant
            p <= total,
            total == w * h,
            total <= 921600,
            w == tex.width(),
            h == tex.height(),
            0 < w,
            0 < h,
            (len == 4) == tex.has_alpha(),
            rgba@.len() == total * 4,
            pixels@ == pixel_data(tex, rgba@, p as int),
        decreases total - p,
    {
        proof {
            lemma_pixel_place(w as int, h as int, p as int);
            assert(0 <= (h - 1 - p as int / w as int) * w) by (nonlinear_arith)
                requires
                    p as int / w as int <= h - 1,
                    0 < w,
            ;
        }
        let row = h - 1 - p / w;
        let at = (row * w + p % w) * 4;
        assert(at == sample_at(tex, p as int));
        let ghost before = pixels@;
        pixels.push(rgba[at + 2]);
        pixels.push(rgba[at + 1]);
        pixels.push(rgba[at]);
        if len == 4 {
            pixels.push(rgba[at + 3]);
        }
        assert(pixels@ =~= before + pixel_bytes(tex, rgba@, at as int));
        p = p + 1;
    }
    let mut out: Vec<u8> = Vec::new();
    let head = [
        0u8,
        0,
        2,
        0,
        0,
        0,
        0,
        0,
        0,
        0,
        0,
        0,
        (width % 0x100) as u8,
        (width / 0x100 % 0x100) as u8,
        (height % 0x100) as u8,
        (height / 0x100 % 0x100) as u8,
        bpp,
        if bpp == 32 {
            0x08u8
        } else {
            0x00u8
        },
    ];
    assert(head@ =~= tga_header(tex));
    append_bytes(&mut out, head.as_slice());
    append_bytes(&mut out, pixels.as_slice());
    append_bytes(&mut out, crate::bytes::zeroed(8).as_slice());
    append_bytes(&mut out, ascii_of("TRUEVISION-XFILE.").as_slice());
    out.push(0u8);
    assert(out@ =~= tga_image(tex, rgba@));
    out
}

proof fn lemma_pixel_data_len(tex: BootTexture, rgba: Seq<u8>, n: int)
    requires
        0 <= n,
    ensures
        pixel_data(tex, rgba, n).len() == n * pixel_len(tex),
    decreases n,
{
    if n > 0 {
        lemma_pixel_data_len(tex, rgba, n - 1);
        assert(n * pixel_len(tex) == (n - 1) * pixel_len(tex) + pixel_len(tex))
            by (nonlinear_arith);
    }
}

/// A texture file has a header, the pixels and a footer, and nothing else.
pub proof fn tga_has_a_fixed_length(tex: BootTexture, rgba: Seq<u8>)
    ensures
        tga_image(tex, rgba).len() == 18 + tex.width() * tex.height() * pixel_len(tex) + 26,
{
    reveal_strlit("TRUEVISION-XFILE.");
    assert(tex.width() * tex.height() >= 0) by (nonlinear_arith)
        requires
            tex.width() >= 0,
            tex.height() >= 0,
    ;
    lemma_pixel_data_len(tex, rgba, tex.width() * tex.height());
}

proof fn lemma_pixel_of(tex: BootTexture, rgba: Seq<u8>, n: int, p: int, c: int)
    requires
        0 <= p < n,
        0 <= c < pixel_len(tex),
    ensures
        0 <= p * pixel_len(tex) + c < n * pixel_len(tex),
        pixel_data(tex, rgba, n)[p * pixel_len(tex) + c] == pixel_bytes(
            tex,
            rgba,
            sample_at(tex, p),
        )[c],
    decreases n,
{
    let k = pixel_len(tex);
    lemma_pixel_data_len(tex, rgba, n - 1);
    lemma_pixel_data_len(tex, rgba, n);
    assert(0 <= p * k) by (nonlinear_arith)
        requires
            0 <= p,
            0 <= k,
    ;
    assert(n * k == (n - 1) * k + k) by (nonlinear_arith);
    if p < n - 1 {
        lemma_pixel_of(tex, rgba, n - 1, p, c);
    }
}

proof fn lemma_row_and_column(w: int, h: int, x: int, y: int)
    requires
        0 <= x < w,
        0 <= y < h,
    ensures
        ({
            let p = (h - 1 - y) * w + x;
            &&& 0 <= p < w * h
            &&& p / w == h - 1 - y
            &&& p % w == x
        }),
{
    let q = h - 1 - y;
    let p = q * w + x;
    assert(0 <= p < w * h) by (nonlinear_arith)
        requires
            p == q * w + x,
            0 <= q < h,
            0 <= x < w,
    ;
    vstd::arithmetic::div_mod::lemma_fundamental_div_mod_converse(p, w, q, x);
}

/// The size of a texture and the bytes of one of its pixels.
pub open spec fn texture_shape(tex: BootTexture) -> (int, int, int) {
    match tex {
        BootTexture::Icon => (128, 128, 4),
        BootTexture::BootTv => (1280, 720, 3),
        BootTexture::BootDrc => (854, 480, 3),
        BootTexture::BootLogo => (170, 42, 4),
    }
}

/// Every pixel of the picture stands where a bottom-up TGA has it: behind the 18 bytes of the header
/// the last row comes first, and each pixel has its blue, its green, its red and, with an alpha
/// channel, its alpha sample. The samples are those of the pixel in the picture, whose rows come
/// from the top, four samples to a pixel.
pub proof fn tga_holds_every_pixel_bottom_up(tex: BootTexture, rgba: Seq<u8>, x: int, y: int)
    requires
        0 <= x < texture_shape(tex).0,
        0 <= y < texture_shape(tex).1,
    ensures
        ({
            let (w, h, n) = texture_shape(tex);
            let file = tga_image(tex, rgba);
            let at = 18 + ((h - 1 - y) * w + x) * n;
            let from = (y * w + x) * 4;
            &&& file.len() == 18 + w * h * n + 26
            &&& 18 <= at && at + n <= 18 + w * h * n
            &&& file[at] == rgba[from + 2]
            &&& file[at + 1] == rgba[from + 1]
            &&& file[at + 2] == rgba[from]
            &&& n == 4 ==> file[at + 3] == rgba[from + 3]
        }),
{
    let (w, h, n) = texture_shape(tex);
    let file = tga_image(tex, rgba);
    let p = (h - 1 - y) * w + x;
    lemma_row_and_column(w, h, x, y);
    lemma_pixel_data_len(tex, rgba, w * h);
    tga_has_a_fixed_length(tex, rgba);
    assert(sample_at(tex, p) == (y * w + x) * 4);
    lemma_pixel_of(tex, rgba, w * h, p, 0);
    lemma_pixel_of(tex, rgba, w * h, p, 1);
    lemma_pixel_of(tex, rgba, w * h, p, 2);
    lemma_pixel_of(tex, rgba, w * h, p, n - 1);
    let pixels = pixel_data(tex, rgba, w * h);
    assert(tga_header(tex).len() == 18);
    assert forall|i: int| 0 <= i < pixels.len() implies file[18 + i] == #[trigger] pixels[i] by {}
    assert(file[18 + (p * n + 0)] == pixels[p * n + 0]);
    assert(file[18 + (p * n + 1)] == pixels[p * n + 1]);
    assert(file[18 + (p * n + 2)] == pixels[p * n + 2]);
    assert(file[18 + (p * n + (n - 1))] == pixels[p * n + (n - 1)]);
}

/// The header says what the file is: an uncompressed true-colour image without a colour map, its
/// width and height in little-endian bytes, the bits of a pixel, the bits of its alpha channel, and
/// rows that come from the bottom. The file ends with the footer of the format.
pub proof fn tga_header_describes_the_texture(tex: BootTexture, rgba: Seq<u8>)
    ensures
        ({
            let (w, h, n) = texture_shape(tex);
            let file = tga_image(tex, rgba);
            &&& file.take(12) == seq![0u8, 0, 2, 0, 0, 0, 0, 0, 0, 0, 0, 0]
            &&& file[12] + 0x100 * file[13] == w
            &&& file[14] + 0x100 * file[15] == h
            &&& file[16] == 8 * n
            &&& file[17] == if n == 4 {
                8u8
            } else {
                0u8
            }
            &&& file.skip(18 + w * h * n) == seq![
                0u8,
                0,
                0,
                0,
                0,
                0,
                0,
                0,
                0x54,
                0x52,
                0x55,
                0x45,
                0x56,
                0x49,
                0x53,
                0x49,
                0x4F,
                0x4E,
                0x2D,
                0x58,
                0x46,
                0x49,
                0x4C,
                0x45,
                0x2E,
                0,
            ]
        }),
{
    let (w, h, n) = texture_shape(tex);
    let file = tga_image(tex, rgba);
    reveal_strlit("TRUEVISION-XFILE.");
    lemma_pixel_data_len(tex, rgba, w * h);
    tga_has_a_fixed_length(tex, rgba);
    let head = tga_header(tex);
    assert forall|i: int| 0 <= i < 18 implies file[i] == #[trigger] head[i] by {}
    assert(file.take(12) =~= head.take(12));
    assert(head.take(12) =~= seq![0u8, 0, 2, 0, 0, 0, 0, 0, 0, 0, 0, 0]);
    assert(file[12] == head[12] && file[13] == head[13] && file[14] == head[14]);
    assert(file[15] == head[15] && file[16] == head[16] && file[17] == head[17]);
    let tail = crate::bytes::zeros(8) + ascii("TRUEVISION-XFILE."@) + seq![0u8];
    assert(file.skip(18 + w * h * n) =~= tail);
}

/// The four textures are told apart by the names that the menu looks for.
pub proof fn texture_files_are_distinct(a: BootTexture, b: BootTexture)
    requires
        a.file() == b.file(),
    ensures
        a == b,
        a.file() == match a {
            BootTexture::Icon => "iconTex.tga"@,
            BootTexture::BootTv => "bootTvTex.tga"@,
            BootTexture::BootDrc => "bootDrcTex.tga"@,
            BootTexture::BootLogo => "bootLogoTex.tga"@,
        },
        (a.width(), a.height()) == match a {
            BootTexture::Icon => (128u32, 128u32),
            BootTexture::BootTv => (1280u32, 720u32),
            BootTexture::BootDrc => (854u32, 480u32),
            BootTexture::BootLogo => (170u32, 42u32),
        },
{
    reveal_strlit("iconTex.tga");
    reveal_strlit("bootTvTex.tga");
    reveal_strlit("bootDrcTex.tga");
    reveal_strlit("bootLogoTex.tga");
    let (m, n) = (a.file(), b.file());
    assert(m.len() == n.len());
    assert(m[0] == n[0]);
    assert(m[4] == n[4]);
}

/// Artwork of the right size is shown as it is: the texture file of artwork that has the texture's
/// width and height holds the artwork's own pixels.
pub proof fn artwork_of_the_right_size_is_kept(png: Seq<u8>, tex: BootTexture, out: Seq<u8>)
    requires
        shows(png, tex, out),
        artwork(png) matches Ok((w, h, _)) && (w, h) == (tex.width(), tex.height()),
    ensures
        out == tga_image(tex, artwork(png)->Ok_0.2),
{
}

/// What artwork is decoded to.
pub open spec fn artwork(png: Seq<u8>) -> Result<(u32, u32, Seq<u8>), Seq<char>> {
    decoded(png, MAX_SOURCE_DIM, MAX_DECODE_ALLOC)
}

/// Why artwork gives no texture file, if it gives none: it cannot be decoded, or only beyond the
/// limits.
pub open spec fn texture_error(png: Seq<u8>) -> Option<ErrorView> {
    match artwork(png) {
        Ok(_) => None,
        Err(m) => Some(ErrorView::Other("failed to decode PNG: "@ + m)),
    }
}

/// `out` is a texture file of artwork: its pixels are the artwork's where that has the size of the
/// texture, and else the artwork resampled to that size with the Lanczos filter.
pub open spec fn shows(png: Seq<u8>, tex: BootTexture, out: Seq<u8>) -> bool {
    artwork(png) matches Ok((w, h, pixels)) && exists|rgba: Seq<u8>|
        {
            &&& rgba.len() == tex.width() * tex.height() * 4
            &&& out == #[trigger] tga_image(tex, rgba)
            &&& resampled(pixels, (w, h), (tex.width(), tex.height()), Filter::Lanczos3, rgba)
            &&& (w, h) == (tex.width(), tex.height()) ==> rgba == pixels
        }
}

/// Turn artwork into a texture file.
pub fn png_to_tga(png_bytes: &[u8], tex: BootTexture) -> (r: Result<Vec<u8>, Error>)
    ensures
        match r {
            Err(e) => texture_error(png_bytes@) == Some(e@),
            Ok(v) => texture_error(png_bytes@) is None && shows(png_bytes@, tex, v@),
        },
{
    let img = match decode_limited(png_bytes, MAX_SOURCE_DIM, MAX_DECODE_ALLOC) {
        Ok(img) => img,
        Err(m) => return Err(Error::Other(joined("failed to decode PNG: ", m.as_str()))),
    };
    let (width, height) = tex.dims();
    let rgba = resize_to_rgba8(&img, width, height, Filter::Lanczos3);
    let out = encode_tga(tex, rgba.as_slice());
    assert(out@ == tga_image(tex, rgba@));
    Ok(out)
}

/// Artwork is decoded under limits of 8192 pixels either way and 256 MiB, and whatever can be decoded
/// gives a texture, resampled with the Lanczos filter.
pub proof fn artwork_is_decoded_under_limits(png: Seq<u8>, tex: BootTexture, out: Seq<u8>)
    ensures
        texture_error(png) is None <==> decoded(png, 8192, 0x1000_0000) is Ok,
        shows(png, tex, out) ==> decoded(png, 8192, 0x1000_0000) is Ok && exists|rgba: Seq<u8>|
            {
                let (w, h, pixels) = decoded(png, 8192, 0x1000_0000)->Ok_0;
                out == #[trigger] tga_image(tex, rgba) && resampled(
                    pixels,
                    (w, h),
                    (tex.width(), tex.height()),
                    Filter::Lanczos3,
                    rgba,
                )
            },
{
}

} // verus!
