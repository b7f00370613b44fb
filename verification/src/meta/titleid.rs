//! Wii U identifiers derived from the game id of a disc.

use crate::bytes::{be32_at, be32_from};
use crate::text::{from_utf8_lossy, joined, lossy_text};
use vstd::prelude::*;

verus! {

/// The identifiers of a Wii U Virtual Console title.
#[derive(Debug, Clone, PartialEq, Eq)]
pub struct TitleIds {
    /// The 64-bit title id: a fixed type in the high half, the disc id in the low half.
    pub title_id: u64,
    /// The disc id as a big-endian number.
    pub group_id: u32,
    /// The `reserved_flag2` value of `meta.xml`, which is the group id.
    pub reserved_flag2: u32,
    /// The product code, such as `WUP-N-RSPE`.
    pub product_code: String,
}

/// Derive the identifiers of a title from the four-byte disc id. An id that is text stands in the
/// product code as it is.
pub fn derive(disc_id4: [u8; 4]) -> (r: TitleIds)
    ensures
        r.group_id == be32_at(disc_id4@, 0),
        r.reserved_flag2 == r.group_id,
        r.title_id == 0x0005_0002_0000_0000 + r.group_id,
        r.product_code@ == "WUP-N-"@ + lossy_text(disc_id4@),
        vstd::utf8::valid_utf8(disc_id4@) ==> r.product_code@ == "WUP-N-"@
            + vstd::utf8::decode_utf8(disc_id4@),
{
    let n = be32_from(disc_id4.as_slice(), 0);
    let product_code = joined("WUP-N-", from_utf8_lossy(disc_id4.as_slice()).as_str());
    TitleIds {
        title_id: 0x0005_0002_0000_0000 + n as u64,
        group_id: n,
        reserved_flag2: n,
        product_code,
    }
}

/// Different disc ids give different title ids.
pub proof fn title_ids_are_distinct(a: Seq<u8>, b: Seq<u8>)
    requires
        a.len() == 4,
        b.len() == 4,
        0x0005_0002_0000_0000 + be32_at(a, 0) == 0x0005_0002_0000_0000 + be32_at(b, 0),
    ensures
        a == b,
{
    crate::bytes::be32_is_injective(a, b);
}

} // verus!
