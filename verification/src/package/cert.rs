//! The certificate chain (`title.cert`).
//!
//! The chain is the same for all retail titles and is supplied by the user. It is validated and
//! passed through unchanged.

use crate::bytes::{be32_at, be32_from, part_at, stands_at};
use crate::error::{Error, ErrorView};
use crate::text::{ascii, ascii_of, dec, dec_text, joined, numeral, numeral_text};
use vstd::prelude::*;

verus! {

/// Size of a retail certificate chain.
pub const EXPECTED_CERT_LEN: usize = 0xA00;

/// The least signature type that a certificate may have.
pub const SIG_TYPE_MIN: u32 = 0x0001_0000;

/// The greatest signature type that a certificate may have.
pub const SIG_TYPE_MAX: u32 = 0x0001_0005;

/// A validated certificate chain.
#[derive(Debug)]
pub struct CertChain(pub Vec<u8>);

/// The chain names the root certificate authority somewhere.
pub open spec fn names_root_ca(bytes: Seq<u8>) -> bool {
    exists|i: int| #[trigger] part_at(bytes, ascii("Root-CA00000003"@), i)
}

/// Why bytes are not a certificate chain, if they are not.
pub open spec fn cert_error(bytes: Seq<u8>) -> Option<ErrorView> {
    if bytes.len() != EXPECTED_CERT_LEN {
        Some(
            ErrorView::InvalidTitle(
                "certificate chain has unexpected size "@ + dec(bytes.len()) + " (expected "@ + dec(
                    EXPECTED_CERT_LEN as nat,
                ) + ")"@,
            ),
        )
    } else if !(SIG_TYPE_MIN <= be32_at(bytes, 0) <= SIG_TYPE_MAX) {
        Some(
            ErrorView::InvalidTitle(
                "certificate chain has unexpected signature type 0x"@ + numeral(
                    be32_at(bytes, 0) as nat,
                    16,
                ),
            ),
        )
    } else if !names_root_ca(bytes) {
        Some(
            ErrorView::InvalidTitle(
                "certificate chain does not contain the Root-CA00000003 issuer"@,
            ),
        )
    } else {
        None
    }
}

fn has_root_ca(bytes: &[u8]) -> (r: bool)
    ensures
        r == names_root_ca(bytes@),
{
    let issuer = ascii_of("Root-CA00000003");
    let mut i: usize = 0;
    while i < bytes.len()
        invariant
            i <= bytes@.len(),
            issuer@ == ascii("Root-CA00000003"@),
            forall|j: int| 0 <= j < i ==> !#[trigger] part_at(bytes@, issuer@, j),
        decreases bytes@.len() - i,
    {
        if stands_at(bytes, issuer.as_slice(), i) {
            return true;
        }
        i = i + 1;
    }
    proof {
        reveal_strlit("Root-CA00000003");
        assert forall|j: int| !#[trigger] part_at(bytes@, ascii("Root-CA00000003"@), j) by {
            if j >= bytes@.len() {
                assert(issuer@.len() == 15);
            }
        }
    }
    false
}

impl CertChain {
    /// Validate the bytes of a certificate chain.
    pub fn from_bytes(bytes: Vec<u8>) -> (r: Result<CertChain, Error>)
        ensures
            match r {
                Ok(c) => cert_error(bytes@) is None && c.0@ == bytes@,
                Err(e) => cert_error(bytes@) == Some(e@),
            },
    {
        if bytes.len() != EXPECTED_CERT_LEN {
            let mut m = joined(
                "certificate chain has unexpected size ",
                dec_text(bytes.len() as u64).as_str(),
            );
            m.append(" (expected ");
            m.append(dec_text(EXPECTED_CERT_LEN as u64).as_str());
            m.append(")");
            return Err(Error::InvalidTitle(m));
        }
        let sig_type = be32_from(bytes.as_slice(), 0);
        if sig_type < SIG_TYPE_MIN || SIG_TYPE_MAX < sig_type {
            let m = joined(
                "certificate chain has unexpected signature type 0x",
                numeral_text(sig_type as u64, 16).as_str(),
            );
            return Err(Error::InvalidTitle(m));
        }
        if !has_root_ca(bytes.as_slice()) {
            return Err(
                Error::InvalidTitle(
                    "certificate chain does not contain the Root-CA00000003 issuer".to_owned(),
                ),
            );
        }
        Ok(CertChain(bytes))
    }

    /// The bytes of the chain.
    pub fn as_bytes(&self) -> (r: &[u8])
        ensures
            r@ == self.0@,
    {
        self.0.as_slice()
    }
}

/// Bytes are taken for a certificate chain exactly where there are 0xA00 of them, they begin with one
/// of the signature types 0x10000 to 0x10005, and `Root-CA00000003` stands somewhere in them.
pub proof fn a_certificate_chain_is_known_by_its_form(bytes: Seq<u8>)
    ensures
        cert_error(bytes) is None <==> {
            &&& bytes.len() == 0xA00
            &&& bytes[0] == 0 && bytes[1] == 1 && bytes[2] == 0 && bytes[3] <= 5
            &&& exists|i: int| #[trigger] part_at(bytes, root_ca_name(), i)
        },
{
    reveal_strlit("Root-CA00000003");
    assert(ascii("Root-CA00000003"@) =~= root_ca_name());
    let v = be32_at(bytes, 0);
    assert(0x1_0000 <= v <= 0x1_0005 <==> bytes[0] == 0 && bytes[1] == 1 && bytes[2] == 0
        && bytes[3] <= 5);
}

/// The bytes of `Root-CA00000003`.
pub open spec fn root_ca_name() -> Seq<u8> {
    seq![0x52u8, 0x6F, 0x6F, 0x74, 0x2D, 0x43, 0x41, 0x30, 0x30, 0x30, 0x30, 0x30, 0x30, 0x30, 0x33]
}

} // verus!
