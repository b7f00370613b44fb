//! The Nintendont autoboot forwarder: the `main.dol` of the synthetic disc.

use super::Reply;
use crate::digest::{sha256, sha256_of};
use crate::error::{Error, ErrorView};
use crate::text::{dec, dec_text, digit_value, fixed_hex, fixed_hex_text, joined, same_bytes};
use vstd::prelude::*;

verus! {

/// The pinned release of the forwarder.
pub const NINTENDONT_LOADER_URL: &'static str =
    "https://github.com/FIX94/nintendont-autoboot-forwarder/releases/download/v1.2/nintendont_default_autobooter.dol";

/// Anything smaller is an error page or a truncated download.
pub const MIN_LOADER_BYTES: usize = 0x4000;

/// The SHA-256 of the pinned release.
pub open spec fn loader_sha256() -> Seq<u8> {
    seq![
        0x6eu8, 0xff, 0x4c, 0x9b, 0x1b, 0xf4, 0xaf, 0xe8, 0x38, 0x3a, 0x06, 0x61, 0x3c, 0x43, 0x1b,
        0xb9, 0xa1, 0x05, 0x86, 0x3a, 0x3b, 0xe1, 0xd1, 0x33, 0x20, 0x62, 0x1b, 0x8a, 0x11, 0x74,
        0x2c, 0x5e,
    ]
}

/// The SHA-256 of the pinned release.
pub fn pinned_sha256() -> (r: [u8; 32])
    ensures
        r@ == loader_sha256(),
{
    let r = [
        0x6eu8, 0xff, 0x4c, 0x9b, 0x1b, 0xf4, 0xaf, 0xe8, 0x38, 0x3a, 0x06, 0x61, 0x3c, 0x43, 0x1b,
        0xb9, 0xa1, 0x05, 0x86, 0x3a, 0x3b, 0xe1, 0xd1, 0x33, 0x20, 0x62, 0x1b, 0x8a, 0x11, 0x74,
        0x2c, 0x5e,
    ];
    assert(r@ =~= loader_sha256());
    r
}

/// The first `k` bytes in hexadecimal, two digits each.
pub open spec fn hex_of(bytes: Seq<u8>, k: int) -> Seq<char>
    decreases k,
{
    if k <= 0 {
        Seq::empty()
    } else {
        hex_of(bytes, k - 1) + fixed_hex(bytes[k - 1] as nat, 2)
    }
}

/// Bytes in hexadecimal, two digits each.
pub fn hex(bytes: &[u8]) -> (r: String)
    ensures
        r@ == hex_of(bytes@, bytes@.len() as int),
{
    let mut r = String::new();
    let mut k: usize = 0;
    assert(r@ =~= hex_of(bytes@, 0));
    while k < bytes.len()
        invariant
            k <= bytes@.len(),
            r@ == hex_of(bytes@, k as int),
        decreases bytes@.len() - k,
    {
        r.append(fixed_hex_text(bytes[k] as u64, 2).as_str());
        k = k + 1;
    }
    r
}

/// The message for a download with another hash than the pinned one.
pub open spec fn mismatch_message(expected: Seq<u8>, actual: Seq<u8>) -> Seq<char> {
    "Nintendont forwarder download from "@ + NINTENDONT_LOADER_URL@
        + " does not match the pinned SHA-256 (expected "@ + hex_of(
        expected,
        expected.len() as int,
    ) + ", got "@ + hex_of(actual, actual.len() as int)
        + "); the release asset may have changed or the download may be corrupted/tampered — supply a known-good file with --nintendont"@
}

/// Check bytes against a hash.
pub fn verify_sha256(bytes: &[u8], expected: &[u8; 32]) -> (r: Result<(), Error>)
    ensures
        match r {
            Ok(_) => sha256_of(bytes@) == expected@,
            Err(e) => sha256_of(bytes@) != expected@ && e@ == ErrorView::Other(
                mismatch_message(expected@, sha256_of(bytes@)),
            ),
        },
{
    let actual = sha256(bytes);
    check_digest(&actual, expected)
}

/// Check a digest against the expected one.
pub fn check_digest(actual: &[u8; 32], expected: &[u8; 32]) -> (r: Result<(), Error>)
    ensures
        match r {
            Ok(_) => actual@ == expected@,
            Err(e) => actual@ != expected@ && e@ == ErrorView::Other(
                mismatch_message(expected@, actual@),
            ),
        },
{
    if same_bytes(actual.as_slice(), expected.as_slice()) {
        return Ok(());
    }
    let mut m = joined("Nintendont forwarder download from ", NINTENDONT_LOADER_URL);
    m.append(" does not match the pinned SHA-256 (expected ");
    m.append(hex(expected.as_slice()).as_str());
    m.append(", got ");
    m.append(hex(actual.as_slice()).as_str());
    m.append(
        "); the release asset may have changed or the download may be corrupted/tampered — supply a known-good file with --nintendont",
    );
    Err(Error::Other(m))
}

/// Why a reply does not give the forwarder, if it does not.
pub open spec fn download_error(reply: Reply) -> Option<Seq<char>> {
    match reply {
        Reply::Unreachable => Some("fetching Nintendont loader from "@ + NINTENDONT_LOADER_URL@),
        Reply::Refused(status) => Some(
            "Nintendont download failed: "@ + NINTENDONT_LOADER_URL@ + " returned "@ + status@,
        ),
        Reply::Unreadable => Some(
            "reading Nintendont loader body from "@ + NINTENDONT_LOADER_URL@,
        ),
        Reply::Body(b) => if b@.len() < MIN_LOADER_BYTES {
            Some(
                "Nintendont forwarder download from "@ + NINTENDONT_LOADER_URL@ + " was only "@
                    + dec(b@.len())
                    + " bytes (expected the ~194 KiB autoboot forwarder .dol); supply one with --nintendont"@,
            )
        } else if sha256_of(b@) != loader_sha256() {
            Some(mismatch_message(loader_sha256(), sha256_of(b@)))
        } else {
            None
        },
    }
}

/// The forwarder, from the reply to the request for [`NINTENDONT_LOADER_URL`]: the body, if it is
/// the pinned release.
pub fn download_boot_dol(reply: Reply) -> (r: Result<Vec<u8>, Error>)
    ensures
        match r {
            Ok(v) => download_error(reply) is None && (reply matches Reply::Body(b) && v@ == b@),
            Err(e) => download_error(reply) matches Some(m) && e@ == ErrorView::Other(m),
        },
{
    match reply {
        Reply::Unreachable => Err(
            Error::Other(joined("fetching Nintendont loader from ", NINTENDONT_LOADER_URL)),
        ),
        Reply::Refused(status) => {
            let mut m = joined("Nintendont download failed: ", NINTENDONT_LOADER_URL);
            m.append(" returned ");
            m.append(status.as_str());
            Err(Error::Other(m))
        },
        Reply::Unreadable => Err(
            Error::Other(joined("reading Nintendont loader body from ", NINTENDONT_LOADER_URL)),
        ),
        Reply::Body(bytes) => {
            if bytes.len() < MIN_LOADER_BYTES {
                let mut m = joined("Nintendont forwarder download from ", NINTENDONT_LOADER_URL);
                m.append(" was only ");
                m.append(dec_text(bytes.len() as u64).as_str());
                m.append(
                    " bytes (expected the ~194 KiB autoboot forwarder .dol); supply one with --nintendont",
                );
                return Err(Error::Other(m));
            }
            let pinned = pinned_sha256();
            match verify_sha256(bytes.as_slice(), &pinned) {
                Ok(_) => Ok(bytes),
                Err(e) => Err(e),
            }
        },
    }
}

/// A reply gives the forwarder exactly where it is a body of at least 0x4000 bytes with the pinned
/// SHA-256.
pub proof fn only_the_pinned_forwarder_is_taken(reply: Reply)
    ensures
        download_error(reply) is None <==> (reply matches Reply::Body(b) && b@.len() >= 0x4000
            && sha256_of(b@) == seq![
            0x6Eu8, 0xFF, 0x4C, 0x9B, 0x1B, 0xF4, 0xAF, 0xE8, 0x38, 0x3A, 0x06, 0x61, 0x3C, 0x43,
            0x1B, 0xB9, 0xA1, 0x05, 0x86, 0x3A, 0x3B, 0xE1, 0xD1, 0x33, 0x20, 0x62, 0x1B, 0x8A,
            0x11, 0x74, 0x2C, 0x5E,
        ]),
{
}

/// Byte `i` stands in hexadecimal as its two digits, the high one first.
pub proof fn hex_reads_back(bytes: Seq<u8>, k: int, i: int)
    requires
        0 <= i < k <= bytes.len(),
    ensures
        hex_of(bytes, k).len() == 2 * k,
        digit_value(hex_of(bytes, k)[2 * i]) * 16 + digit_value(hex_of(bytes, k)[2 * i + 1])
            == bytes[i],
    decreases k,
{
    let last = fixed_hex(bytes[k - 1] as nat, 2);
    reveal_with_fuel(fixed_hex, 3);
    assert(last.len() == 2);
    assert(digit_value(last[0]) == bytes[k - 1] / 16 && digit_value(last[1]) == bytes[k - 1] % 16);
    if k > 1 {
        hex_reads_back(bytes, k - 1, if i < k - 1 {
            i
        } else {
            0
        });
    } else {
        assert(hex_of(bytes, 0).len() == 0);
    }
    if i == k - 1 {
        assert(hex_of(bytes, k)[2 * i] == last[0] && hex_of(bytes, k)[2 * i + 1] == last[1]);
    } else {
        let before = hex_of(bytes, k - 1);
        assert(hex_of(bytes, k)[2 * i] == before[2 * i] && hex_of(bytes, k)[2 * i + 1] == before[2
            * i + 1]);
    }
}

/// The forwarder is the asset of one release.
pub proof fn the_forwarder_is_pinned()
    ensures
        NINTENDONT_LOADER_URL@
            == "https://github.com/FIX94/nintendont-autoboot-forwarder/releases/download/v1.2/nintendont_default_autobooter.dol"@,
{
}

} // verus!
