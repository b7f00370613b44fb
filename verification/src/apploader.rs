//! The apploader and the certificate chain of the base title's own disc.

use crate::bytes::{be32_at, be32_from};
use crate::error::{Error, ErrorView};
use crate::text::{
    chars_of, fixed_hex, fixed_hex_text, from_utf8_lossy, joined, lossy_text, numeral, numeral_text,
    strip_trailing, text_of, trim, trimmed, without_trailing,
};
use vstd::prelude::*;
use vstd::slice::slice_subrange;

verus! {

/// Where the apploader stands in the logical partition data.
pub const APPLOADER_PART_OFF: u64 = 0x2440;

/// Length of the apploader's header.
pub const HEADER_LEN: usize = 0x20;

/// No apploader is larger than this.
pub const MAX_APPLOADER_BYTES: usize = 0x20_0000;

/// Where the partition table stands on the disc.
pub const PARTITION_TABLE_OFF: u64 = 0x4_0000;

/// The length of the image that a header declares.
pub open spec fn declared_len(header: Seq<u8>) -> int {
    HEADER_LEN + be32_at(header, 0x14) + be32_at(header, 0x18)
}

/// The header of a possible apploader: an entry point, a payload, and a length within bounds.
pub open spec fn plausible(header: Seq<u8>) -> bool {
    be32_at(header, 0x10) != 0 && be32_at(header, 0x14) != 0 && declared_len(header)
        <= MAX_APPLOADER_BYTES
}

/// The message for a header that is not that of an apploader.
pub open spec fn implausible_message(header: Seq<u8>) -> Seq<char> {
    "no plausible apploader at partition offset 0x"@ + numeral(APPLOADER_PART_OFF as nat, 16)
        + " (entry 0x"@ + fixed_hex(be32_at(header, 0x10) as nat, 8) + ", size 0x"@ + numeral(
        be32_at(header, 0x14) as nat,
        16,
    ) + ", trailer 0x"@ + numeral(be32_at(header, 0x18) as nat, 16) + ")"@
}

/// The revision date in a header.
pub open spec fn header_date(header: Seq<u8>) -> Seq<char> {
    trimmed(without_trailing(lossy_text(header.take(0x10)), '\0'))
}

/// Parse an apploader's header: the length of the whole image, its date and its entry point.
pub fn parse_header(header: &[u8; 32]) -> (r: Result<(usize, String, u32), Error>)
    ensures
        match r {
            Ok((total, date, entry)) => {
                &&& plausible(header@)
                &&& total == declared_len(header@)
                &&& date@ == header_date(header@)
                &&& entry == be32_at(header@, 0x10)
            },
            Err(e) => !plausible(header@) && e@ == ErrorView::UnsupportedDisc(
                implausible_message(header@),
            ),
        },
{
    let h = header.as_slice();
    let entry = be32_from(h, 0x10);
    let size = be32_from(h, 0x14);
    let trailer = be32_from(h, 0x18);
    let total: u64 = HEADER_LEN as u64 + size as u64 + trailer as u64;
    if entry == 0 || size == 0 || total > MAX_APPLOADER_BYTES as u64 {
        let mut m = joined(
            "no plausible apploader at partition offset 0x",
            numeral_text(APPLOADER_PART_OFF, 16).as_str(),
        );
        m.append(" (entry 0x");
        m.append(fixed_hex_text(entry as u64, 8).as_str());
        m.append(", size 0x");
        m.append(numeral_text(size as u64, 16).as_str());
        m.append(", trailer 0x");
        m.append(numeral_text(trailer as u64, 16).as_str());
        m.append(")");
        return Err(Error::UnsupportedDisc(m));
    }
    let field = slice_subrange(h, 0, 0x10);
    assert(field@ =~= header@.take(0x10));
    let raw = chars_of(from_utf8_lossy(field).as_str());
    let date = text_of(trim(strip_trailing(raw.as_slice(), '\0')));
    Ok((total as usize, date, entry))
}

/// Where the partition info stands, from the partition table: offsets are stored divided by four.
pub fn partition_info_offset(table: &[u8]) -> (r: u64)
    requires
        table@.len() >= 8,
    ensures
        r == be32_at(table@, 4) * 4,
{
    be32_from(table, 4) as u64 * 4
}

/// Where the first partition begins, from the partition info.
pub fn partition_offset(info: &[u8]) -> (r: u64)
    requires
        info@.len() >= 4,
    ensures
        r == be32_at(info@, 0) * 4,
{
    be32_from(info, 0) as u64 * 4
}

/// Where the certificate chain stands, and its length, from the header of a partition that begins
/// at `part_off`.
pub fn cert_chain_range(part_off: u64, header: &[u8]) -> (r: Result<(u64, usize), Error>)
    requires
        header@.len() >= 0x2B4,
        part_off <= 0x4_0000_0000,
    ensures
        ({
            let size = be32_at(header@, 0x2AC);
            match r {
                Ok((off, len)) => {
                    &&& 0 < size <= 0x4000
                    &&& len == size
                    &&& off == part_off + be32_at(header@, 0x2B0) * 4
                },
                Err(e) => (size == 0 || size > 0x4000) && e@ == ErrorView::UnsupportedDisc(
                    "base disc has no usable certificate chain (size 0x"@ + numeral(
                        size as nat,
                        16,
                    ) + ")"@,
                ),
            }
        }),
{
    let size = be32_from(header, 0x2AC);
    let off = be32_from(header, 0x2B0) as u64 * 4;
    if size == 0 || size > 0x4000 {
        let mut m = joined(
            "base disc has no usable certificate chain (size 0x",
            numeral_text(size as u64, 16).as_str(),
        );
        m.append(")");
        return Err(Error::UnsupportedDisc(m));
    }
    Ok((part_off + off, size as usize))
}

/// An authored partition header leads back to the certificate chain that it was built with.
pub proof fn authored_header_leads_to_the_chain(
    ticket: Seq<u8>,
    tmd: Seq<u8>,
    cert_chain: Seq<u8>,
    h3_table: Seq<u8>,
    data_size: int,
)
    requires
        ticket.len() == 0x2A4,
        tmd.len() == 0x208,
        0x4E0 + cert_chain.len() <= 0x8000,
        h3_table.len() == 0x1_8000,
    ensures
        ({
            let header = crate::wii_author::images::partition_header_image(
                ticket,
                tmd,
                cert_chain,
                h3_table,
                data_size,
            );
            let len = be32_at(header, 0x2AC) as int;
            let off = be32_at(header, 0x2B0) * 4;
            header.subrange(off, off + len) == cert_chain
        }),
{
    let fields = crate::wii_author::images::partition_header_fields(
        ticket,
        tmd,
        cert_chain,
        h3_table,
        data_size,
    );
    let header = crate::wii_author::images::partition_header_image(
        ticket,
        tmd,
        cert_chain,
        h3_table,
        data_size,
    );
    assert(crate::bytes::fields_ascend(0x2_0000, fields));
    crate::bytes::ascending_fields_are_apart(0x2_0000, fields);
    crate::bytes::layout_reads_back(0x2_0000, fields);
    assert(fields[3].off == 0x2AC && fields[4].off == 0x2B0 && fields[9].off == 0x4E0);
    crate::bytes::be32_at_its_bytes(header, 0x2AC, cert_chain.len() as u32);
    crate::bytes::be32_at_its_bytes(header, 0x2B0, 0x138);
}

/// A header is taken for that of an apploader exactly where it has an entry point and a payload and
/// the header, the payload and the trailer come to no more than 2 MiB; their sum is the length of
/// the image.
pub proof fn an_apploader_has_an_entry_and_a_payload(header: Seq<u8>)
    requires
        header.len() == 0x20,
    ensures
        ({
            let entry = be32_at(header, 0x10);
            let size = be32_at(header, 0x14);
            let trailer = be32_at(header, 0x18);
            &&& plausible(header) <==> entry > 0 && size > 0 && 0x20 + size + trailer <= 0x20_0000
            &&& declared_len(header) == 0x20 + size + trailer
            &&& plausible(header) ==> declared_len(header) > 0x20
        }),
{
}

} // verus!
