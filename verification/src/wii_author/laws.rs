//! What a disc reader finds in an authored disc, by the offsets of the format.

use super::images::{
    boot_fields, boot_image, boot_image_holds_the_offsets, disc_header_fields, disc_header_image, disc_title_id, dol_off, fst_image, fst_image_holds_the_file, fst_off,
    iso_off, logical_layout_is_ordered, PART_ABS, partition_header_fields, partition_header_image,
    region_info, sys_image, sys_image_holds_the_files, ticket_fields, ticket_image, title_field,
    tmd_fields, tmd_image,
};
use super::{
    authored_sectors_validate, clusters_for, data_region,
    data_region_reads_back, gc_disc_error, groups_for, h3_table, lemma_follow_offsets, AuthoredDisc, GcDiscInputs,
};
use crate::bytes::{
    ascending_fields_are_apart, be16, be32, be32_at, be32_at_its_bytes, be64, fields_ascend,
    in_field, layout, layout_reads_back, zeros, Field,
};
use crate::digest::sha1_of;
use crate::text::ascii;
use vstd::prelude::*;
use vstd::utf8::encode_utf8;

verus! {

/// The big-endian number of eight bytes at `off`.
pub open spec fn be64_at(s: Seq<u8>, off: int) -> int {
    be32_at(s, off) * 0x1_0000_0000 + be32_at(s, off + 4)
}

proof fn lemma_be64_at(s: Seq<u8>, off: int, v: u64)
    requires
        0 <= off <= s.len() - 8,
        s.subrange(off, off + 8) == be64(v),
    ensures
        be64_at(s, off) == v,
{
    let t = s.subrange(off, off + 8);
    assert(s.subrange(off, off + 4) =~= t.subrange(0, 4));
    assert(s.subrange(off + 4, off + 8) =~= t.subrange(4, 8));
    assert(be64(v).subrange(0, 4) =~= be32((v / 0x1_0000_0000) as u32));
    assert(be64(v).subrange(4, 8) =~= be32((v % 0x1_0000_0000) as u32));
    be32_at_its_bytes(s, off, (v / 0x1_0000_0000) as u32);
    be32_at_its_bytes(s, off + 4, (v % 0x1_0000_0000) as u32);
}

proof fn lemma_field(len: nat, fields: Seq<Field>, j: int)
    requires
        fields_ascend(len, fields),
        0 <= j < fields.len(),
    ensures
        layout(len, fields).len() == len,
        0 <= fields[j].off,
        fields[j].off + fields[j].bytes.len() <= len,
        layout(len, fields).subrange(fields[j].off, fields[j].off + fields[j].bytes.len())
            == fields[j].bytes,
{
    ascending_fields_are_apart(len, fields);
    layout_reads_back(len, fields);
}

/// The offset table of a partition header leads to its parts: with every offset divided by four, it
/// gives where the TMD and the certificate chain stand and how long they are, where the `H3` table
/// stands, and where the data begins, which is where the header ends, and how long the data is. The
/// ticket comes first.
pub proof fn partition_header_leads_to_its_parts(
    ticket: Seq<u8>,
    tmd: Seq<u8>,
    cert_chain: Seq<u8>,
    h3: Seq<u8>,
    data_size: int,
)
    requires
        ticket.len() == 0x2A4,
        tmd.len() <= 0x220,
        cert_chain.len() <= 0x7B20,
        h3.len() == 0x1_8000,
        0 <= data_size <= 4 * u32::MAX,
        data_size % 4 == 0,
    ensures
        ({
            let p = partition_header_image(ticket, tmd, cert_chain, h3, data_size);
            let tmd_at = 4 * be32_at(p, 0x2A8);
            let cert_at = 4 * be32_at(p, 0x2B0);
            let h3_at = 4 * be32_at(p, 0x2B4);
            let data_at = 4 * be32_at(p, 0x2B8);
            &&& p.take(0x2A4) == ticket
            &&& p.subrange(tmd_at, tmd_at + be32_at(p, 0x2A4)) == tmd
            &&& p.subrange(cert_at, cert_at + be32_at(p, 0x2AC)) == cert_chain
            &&& 0x2C0 <= tmd_at && tmd_at + tmd.len() <= cert_at
            &&& cert_at + cert_chain.len() <= h3_at
            &&& h3_at == 0x8000
            &&& p.subrange(h3_at, data_at) == h3
            &&& data_at == p.len()
            &&& data_at == 0x2_0000
            &&& PART_ABS + data_at == 0xF82_0000
            &&& 4 * be32_at(p, 0x2BC) == data_size
        }),
{
    let p = partition_header_image(ticket, tmd, cert_chain, h3, data_size);
    let f = partition_header_fields(ticket, tmd, cert_chain, h3, data_size);
    assert(fields_ascend(0x2_0000, f));
    lemma_field(0x2_0000, f, 0);
    lemma_field(0x2_0000, f, 1);
    lemma_field(0x2_0000, f, 2);
    lemma_field(0x2_0000, f, 3);
    lemma_field(0x2_0000, f, 4);
    lemma_field(0x2_0000, f, 5);
    lemma_field(0x2_0000, f, 6);
    lemma_field(0x2_0000, f, 7);
    lemma_field(0x2_0000, f, 8);
    lemma_field(0x2_0000, f, 9);
    lemma_field(0x2_0000, f, 10);
    be32_at_its_bytes(p, 0x2A4, tmd.len() as u32);
    be32_at_its_bytes(p, 0x2A8, 0xB0);
    be32_at_its_bytes(p, 0x2AC, cert_chain.len() as u32);
    be32_at_its_bytes(p, 0x2B0, 0x138);
    be32_at_its_bytes(p, 0x2B4, 0x2000);
    be32_at_its_bytes(p, 0x2B8, 0x8000);
    be32_at_its_bytes(p, 0x2BC, (data_size / 4) as u32);
    assert(p.take(0x2A4) =~= p.subrange(0, 0x2A4));
}

/// The title in the 64 bytes of a header that hold it: its UTF-8 bytes, as many as leave room for a
/// zero behind them, and zeros to the end.
pub open spec fn holds_title(image: Seq<u8>, at: int, title: Seq<char>) -> bool {
    let b = encode_utf8(title);
    let n = if b.len() < 0x40 {
        b.len() as int
    } else {
        0x3F
    };
    &&& image.subrange(at, at + n) == b.take(n)
    &&& forall|i: int| at + n <= i < at + 0x40 ==> #[trigger] image[i] == 0
}

proof fn lemma_title(len: nat, fields: Seq<Field>, j: int, at: int, title: Seq<char>)
    requires
        fields_ascend(len, fields),
        0 <= j < fields.len() - 1,
        fields[j].off == at,
        fields[j].bytes == title_field(title, 0x40),
        at + 0x40 <= fields[j + 1].off,
    ensures
        holds_title(layout(len, fields), at, title),
{
    lemma_field(len, fields, j);
    lemma_field(len, fields, j + 1);
    ascending_fields_are_apart(len, fields);
    layout_reads_back(len, fields);
    let image = layout(len, fields);
    let b = encode_utf8(title);
    let n = title_field(title, 0x40).len() as int;
    assert(image.subrange(at, at + n) =~= b.take(n));
    assert forall|i: int| at + n <= i < at + 0x40 implies #[trigger] image[i] == 0 by {
        assert(!in_field(fields, i)) by {
            assert forall|k: int| 0 <= k < fields.len() implies !((#[trigger] fields[k]).off <= i
                < fields[k].off + fields[k].bytes.len()) by {
                if k < j {
                    assert(fields[k].off + fields[k].bytes.len() <= fields[j].off || fields[j].off
                        + fields[j].bytes.len() <= fields[k].off);
                    lemma_order(len, fields, k, j);
                } else if k > j {
                    lemma_order(len, fields, j + 1, k);
                }
            }
        }
    }
}

proof fn lemma_order(len: nat, fields: Seq<Field>, i: int, j: int)
    requires
        fields_ascend(len, fields),
        0 <= i <= j < fields.len(),
    ensures
        fields[i].off <= fields[j].off,
        i < j ==> fields[i].off + fields[i].bytes.len() <= fields[j].off,
    decreases j - i,
{
    if i < j {
        lemma_order(len, fields, i, j - 1);
        assert(fields[j - 1].off + fields[j - 1].bytes.len() <= fields[j - 1 + 1].off);
    }
}

/// A disc header begins with the game id, the magic of a Wii disc and the title. Its partition table
/// has one entry, and following that, with every offset divided by four, leads to the partition, a
/// DATA partition. The region stands in the region info, and the area ends with the second magic.
#[verifier::rlimit(40)]
pub proof fn disc_header_leads_to_the_partition(game_id: Seq<u8>, title: Seq<char>)
    requires
        game_id.len() == 6,
    ensures
        ({
            let h = disc_header_image(game_id, title);
            let entry = 4 * be32_at(h, 0x4_0004);
            &&& h.len() == 0x5_0000
            &&& h.take(6) == game_id
            &&& be32_at(h, 0x18) == 0x5D1C_9EA3
            &&& holds_title(h, 0x20, title)
            &&& be32_at(h, 0x4_0000) == 1
            &&& entry == 0x4_0020
            &&& 4 * be32_at(h, entry) == 0xF80_0000
            &&& h.subrange(entry + 4, entry + 8) == seq![0u8, 0, 0, 0]
            &&& h.subrange(0x4_0008, 0x4_000C) == seq![0u8, 0, 0, 0]
            &&& be32_at(h, 0x4_000C) == 8
            &&& be32_at(h, 0x4_800C) == 9
            &&& be32_at(h, 0x4_E000) == region_info(game_id[3])
            &&& be32_at(h, 0x4_FFFC) == 0xC3F8_1A8E
        }),
{
    let h = disc_header_image(game_id, title);
    let f = disc_header_fields(game_id, title);
    assert(fields_ascend(0x5_0000, f));
    lemma_field(0x5_0000, f, 0);
    lemma_field(0x5_0000, f, 1);
    lemma_field(0x5_0000, f, 3);
    lemma_field(0x5_0000, f, 4);
    lemma_field(0x5_0000, f, 5);
    lemma_field(0x5_0000, f, 6);
    lemma_field(0x5_0000, f, 7);
    lemma_field(0x5_0000, f, 8);
    lemma_field(0x5_0000, f, 9);
    lemma_title(0x5_0000, f, 2, 0x20, title);
    assert(h.take(6) =~= h.subrange(0, 6));
    be32_at_its_bytes(h, 0x18, 0x5D1C_9EA3);
    be32_at_its_bytes(h, 0x4_0000, 1);
    be32_at_its_bytes(h, 0x4_0004, 0x1_0008);
    be32_at_its_bytes(h, 0x4_000C, 8);
    be32_at_its_bytes(h, 0x4_0020, 0x3E0_0000);
    be32_at_its_bytes(h, 0x4_800C, 9);
    be32_at_its_bytes(h, 0x4_E000, region_info(game_id[3]));
    be32_at_its_bytes(h, 0x4_FFFC, 0xC3F8_1A8E);
    layout_reads_back(0x5_0000, f);
    assert forall|i: int| 0x4_0024 <= i < 0x4_0028 || 0x4_0008 <= i < 0x4_000C implies #[trigger] h[i]
        == 0 by {
        assert(!in_field(f, i));
    }
    assert(h.subrange(0x4_0024, 0x4_0028) =~= seq![0u8, 0, 0, 0]);
    assert(h.subrange(0x4_0008, 0x4_000C) =~= seq![0u8, 0, 0, 0]);
}

/// The region of a disc follows the region character of the game id: 0 for Japan and Taiwan, 1 for
/// America, 2 for Europe and Australia, 4 for Korea, and 0 for every other character.
pub proof fn region_follows_the_game_id(c: u8)
    ensures
        c == 0x4A || c == 0x57 ==> region_info(c) == 0,
        region_info(c) == 1 <==> c == 0x45 || c == 0x4E,
        region_info(c) == 2 <==> c == 0x44 || c == 0x46 || c == 0x49 || c == 0x4C || c == 0x4D || c
            == 0x50 || c == 0x52 || c == 0x53 || c == 0x55 || c == 0x56 || c == 0x58 || c == 0x59
            || c == 0x5A,
        region_info(c) == 4 <==> c == 0x4B || c == 0x51 || c == 0x54,
        region_info(c) == 0 || region_info(c) == 1 || region_info(c) == 2 || region_info(c) == 4,
{
}

/// An authored ticket is of the signature type RSA-2048 with SHA-1 with an empty signature, and
/// carries the issuer, the title key, the ticket id, the title id of the disc and the access masks
/// where the format has them.
#[verifier::rlimit(40)]
pub proof fn ticket_reads_back(title_id: u64)
    ensures
        ({
            let t = ticket_image(title_id);
            &&& t.len() == 0x2A4
            &&& be32_at(t, 0) == 0x0001_0001
            &&& forall|i: int| 4 <= i < 0x140 ==> #[trigger] t[i] == 0
            &&& t.subrange(0x140, 0x15A) == ascii("Root-CA00000001-XS00000003"@)
            &&& t.subrange(0x1BF, 0x1CF) == seq![
                0xFBu8,
                0x1A,
                0x55,
                0xB4,
                0xA6,
                0xB6,
                0x5C,
                0x46,
                0x8B,
                0x91,
                0xEF,
                0x66,
                0x29,
                0xD7,
                0x6E,
                0x8F,
            ]
            &&& be64_at(t, 0x1D0) == 0x0001_B7C5_B7D2_80B4
            &&& be64_at(t, 0x1DC) == title_id
            &&& t[0x1E4] == 0xFF && t[0x1E5] == 0xFF
            &&& forall|i: int| 0x222 <= i < 0x242 ==> #[trigger] t[i] == 0xFF
            &&& t[0x24C] == 2
        }),
{
    let t = ticket_image(title_id);
    let f = ticket_fields(title_id);
    reveal_strlit("Root-CA00000001-XS00000003");
    assert(fields_ascend(0x2A4, f));
    lemma_field(0x2A4, f, 0);
    lemma_field(0x2A4, f, 1);
    lemma_field(0x2A4, f, 2);
    lemma_field(0x2A4, f, 3);
    lemma_field(0x2A4, f, 4);
    lemma_field(0x2A4, f, 5);
    lemma_field(0x2A4, f, 6);
    lemma_field(0x2A4, f, 7);
    be32_at_its_bytes(t, 0, 0x0001_0001);
    lemma_be64_at(t, 0x1D0, 0x0001_B7C5_B7D2_80B4);
    lemma_be64_at(t, 0x1DC, title_id);
    assert(t.subrange(0x1E4, 0x1E6) == be16(0xFFFF));
    assert(t.subrange(0x1E4, 0x1E6)[0] == 0xFF && t.subrange(0x1E4, 0x1E6)[1] == 0xFF);
    let mask = t.subrange(0x222, 0x242);
    assert forall|i: int| 0x222 <= i < 0x242 implies #[trigger] t[i] == 0xFF by {
        assert(mask[i - 0x222] == 0xFF);
    }
    assert(t.subrange(0x24C, 0x24D)[0] == 2);
    layout_reads_back(0x2A4, f);
    assert forall|i: int| 4 <= i < 0x140 implies #[trigger] t[i] == 0 by {
        assert(!in_field(f, i));
    }
}

/// An authored TMD is of the signature type RSA-2048 with SHA-1 with an empty signature, and carries
/// the issuer, the system version, the title id of the disc, the title type and one content with its
/// size and its hash where the format has them.
#[verifier::rlimit(40)]
pub proof fn tmd_reads_back(title_id: u64, h3_hash: Seq<u8>)
    requires
        h3_hash.len() == 20,
    ensures
        ({
            let m = tmd_image(title_id, h3_hash);
            &&& m.len() == 0x208
            &&& be32_at(m, 0) == 0x0001_0001
            &&& forall|i: int| 4 <= i < 0x140 ==> #[trigger] m[i] == 0
            &&& m.subrange(0x140, 0x15A) == ascii("Root-CA00000001-CP00000004"@)
            &&& be64_at(m, 0x184) == 0x0000_0001_0000_0023
            &&& be64_at(m, 0x18C) == title_id
            &&& be32_at(m, 0x194) == 1
            &&& m[0x198] == 0x30 && m[0x199] == 0x31
            &&& m[0x19A] == 3
            &&& m[0x1DE] == 0 && m[0x1DF] == 1
            &&& m[0x1EA] == 0 && m[0x1EB] == 3
            &&& be64_at(m, 0x1EC) == 0xFF7C_0000
            &&& m.subrange(0x1F4, 0x208) == h3_hash
        }),
{
    let m = tmd_image(title_id, h3_hash);
    let f = tmd_fields(title_id, h3_hash);
    reveal_strlit("Root-CA00000001-CP00000004");
    reveal_strlit("01");
    assert(fields_ascend(0x208, f));
    lemma_field(0x208, f, 0);
    lemma_field(0x208, f, 1);
    lemma_field(0x208, f, 2);
    lemma_field(0x208, f, 3);
    lemma_field(0x208, f, 4);
    lemma_field(0x208, f, 5);
    lemma_field(0x208, f, 6);
    lemma_field(0x208, f, 7);
    lemma_field(0x208, f, 8);
    lemma_field(0x208, f, 9);
    lemma_field(0x208, f, 10);
    be32_at_its_bytes(m, 0, 0x0001_0001);
    lemma_be64_at(m, 0x184, 0x0000_0001_0000_0023);
    lemma_be64_at(m, 0x18C, title_id);
    be32_at_its_bytes(m, 0x194, 1);
    lemma_be64_at(m, 0x1EC, 0xFF7C_0000);
    assert(m.subrange(0x198, 0x19A)[0] == 0x30 && m.subrange(0x198, 0x19A)[1] == 0x31);
    assert(m.subrange(0x19A, 0x19B)[0] == 3);
    assert(m.subrange(0x1DE, 0x1E0)[0] == 0 && m.subrange(0x1DE, 0x1E0)[1] == 1);
    assert(m.subrange(0x1EA, 0x1EC)[0] == 0 && m.subrange(0x1EA, 0x1EC)[1] == 3);
    layout_reads_back(0x208, f);
    assert forall|i: int| 4 <= i < 0x140 implies #[trigger] m[i] == 0 by {
        assert(!in_field(f, i));
    }
}

/// The title id of an authored disc is that of a disc title, with the first four characters of the
/// game id as its code.
pub proof fn disc_title_id_spells_the_game_code(game_id: Seq<u8>)
    requires
        game_id.len() == 6,
    ensures
        disc_title_id(game_id) == 0x0001_0000_0000_0000 + game_id[0] * 0x100_0000 + game_id[1]
            * 0x1_0000 + game_id[2] * 0x100 + game_id[3],
{
}

/// `boot.bin` and `bi2.bin` carry the game id, the magic and the title as the disc header does, the
/// places of `main.dol` and of the FST and the size of the FST, all divided by four, and the values
/// that the console boots with.
#[verifier::rlimit(60)]
pub proof fn boot_reads_back(game_id: Seq<u8>, title: Seq<char>, dol_at: int, fst_at: int)
    requires
        game_id.len() == 6,
        0 <= dol_at <= 4 * u32::MAX,
        0 <= fst_at <= 4 * u32::MAX,
        dol_at % 4 == 0,
        fst_at % 4 == 0,
    ensures
        ({
            let b = boot_image(game_id, title, dol_at, fst_at);
            &&& b.len() == 0x2440
            &&& b.take(6) == game_id
            &&& be32_at(b, 0x18) == 0x5D1C_9EA3
            &&& holds_title(b, 0x20, title)
            &&& be32_at(b, 0x60) == 0x0101_0000
            &&& 4 * be32_at(b, 0x420) == dol_at
            &&& 4 * be32_at(b, 0x424) == fst_at
            &&& 4 * be32_at(b, 0x428) == 36
            &&& 4 * be32_at(b, 0x42C) == 36
            &&& be32_at(b, 0x430) == 0x803F_FF60
            &&& be32_at(b, 0x434) == 0x0006_0000
            &&& be32_at(b, 0x438) == 0x0424_FFF8
            &&& be32_at(b, 0x45C) == 1
            &&& be32_at(b, 0x460) == 1
            &&& be32_at(b, 0x464) == 5
            &&& be32_at(b, 0x46C) == 0x0400_0000
            &&& be32_at(b, 0x470) == 0x7ED4_0000
        }),
{
    let b = boot_image(game_id, title, dol_at, fst_at);
    let f = boot_fields(game_id, title, dol_at, fst_at);
    assert(fields_ascend(0x2440, f));
    lemma_field(0x2440, f, 0);
    lemma_field(0x2440, f, 1);
    lemma_title(0x2440, f, 2, 0x20, title);
    lemma_field(0x2440, f, 3);
    lemma_field(0x2440, f, 4);
    lemma_field(0x2440, f, 5);
    lemma_field(0x2440, f, 6);
    lemma_field(0x2440, f, 7);
    lemma_field(0x2440, f, 8);
    lemma_field(0x2440, f, 9);
    lemma_field(0x2440, f, 10);
    lemma_field(0x2440, f, 11);
    lemma_field(0x2440, f, 12);
    lemma_field(0x2440, f, 13);
    lemma_field(0x2440, f, 14);
    lemma_field(0x2440, f, 15);
    assert(b.take(6) =~= b.subrange(0, 6));
    be32_at_its_bytes(b, 0x18, 0x5D1C_9EA3);
    be32_at_its_bytes(b, 0x60, 0x0101_0000);
    be32_at_its_bytes(b, 0x420, (dol_at / 4) as u32);
    be32_at_its_bytes(b, 0x424, (fst_at / 4) as u32);
    be32_at_its_bytes(b, 0x428, 9);
    be32_at_its_bytes(b, 0x42C, 9);
    be32_at_its_bytes(b, 0x430, 0x803F_FF60);
    be32_at_its_bytes(b, 0x434, 0x0006_0000);
    be32_at_its_bytes(b, 0x438, 0x0424_FFF8);
    be32_at_its_bytes(b, 0x45C, 1);
    be32_at_its_bytes(b, 0x460, 1);
    be32_at_its_bytes(b, 0x464, 5);
    be32_at_its_bytes(b, 0x46C, 0x0400_0000);
    be32_at_its_bytes(b, 0x470, 0x7ED4_0000);
}

/// The FST of an authored disc has a root directory with two entries, itself and one file, whose
/// name is the first of the names behind the entries: `game.iso`. Its place is stored divided by
/// four.
pub proof fn disc_fst_reads_back(iso_data_off: int, iso_size: int)
    requires
        0 <= iso_data_off <= 4 * u32::MAX,
        iso_data_off % 4 == 0,
        0 <= iso_size <= u32::MAX,
    ensures
        ({
            let f = fst_image(iso_data_off, iso_size);
            let names = 12 * be32_at(f, 8);
            &&& f.len() == 36
            &&& be32_at(f, 0) == 0x0100_0000
            &&& be32_at(f, 4) == 0
            &&& be32_at(f, 8) == 2
            &&& be32_at(f, 12) == 0
            &&& 4 * be32_at(f, 16) == iso_data_off
            &&& be32_at(f, 20) == iso_size
            &&& f.subrange(names, names + 8) == seq![
                0x67u8,
                0x61,
                0x6D,
                0x65,
                0x2E,
                0x69,
                0x73,
                0x6F,
            ]
            &&& f.skip(names + 8) == seq![0u8, 0, 0, 0]
        }),
{
    reveal_strlit("game.iso");
    let f = fst_image(iso_data_off, iso_size);
    assert(f.subrange(4, 8) =~= be32(0));
    assert(f.subrange(8, 12) =~= be32(2));
    assert(f.subrange(16, 20) =~= be32((iso_data_off / 4) as u32));
    assert(f.subrange(20, 24) =~= be32(iso_size as u32));
    be32_at_its_bytes(f, 4, 0);
    be32_at_its_bytes(f, 8, 2);
    be32_at_its_bytes(f, 16, (iso_data_off / 4) as u32);
    be32_at_its_bytes(f, 20, iso_size as u32);
    assert(f.subrange(24, 32) =~= seq![0x67u8, 0x61, 0x6D, 0x65, 0x2E, 0x69, 0x73, 0x6F]);
    assert(f.skip(32) =~= seq![0u8, 0, 0, 0]);
}

/// The files of an authored disc follow each other in its logical data: `boot.bin` and `bi2.bin`, the
/// apploader behind their 0x2440 bytes, `main.dol` and the FST each on the next multiple of 32, and
/// `game.iso` on the next hash group. Between them are zeros.
#[verifier::spinoff_prover]
#[verifier::rlimit(60)]
pub proof fn logical_data_holds_its_files(inputs: GcDiscInputs, iso: Seq<u8>, i: int)
    requires
        gc_disc_error(inputs, iso.len() as int) is None,
    ensures
        ({
            let content = inputs.sys(iso.len() as int) + iso;
            let dol_at = 4 * be32_at(content, 0x420);
            let fst_at = 4 * be32_at(content, 0x424);
            let iso_at = 4 * be32_at(content, fst_at + 16);
            let loader_end = 0x2440 + inputs.apploader@.len();
            let dol_end = dol_at + inputs.main_dol@.len();
            &&& content.subrange(0x2440, loader_end as int) == inputs.apploader@
            &&& loader_end <= dol_at < loader_end + 0x20 && dol_at % 0x20 == 0
            &&& content.subrange(dol_at, dol_end) == inputs.main_dol@
            &&& dol_end <= fst_at < dol_end + 0x20 && fst_at % 0x20 == 0
            &&& fst_at + 36 <= iso_at < fst_at + 36 + 0x1F_0000 && iso_at % 0x1F_0000 == 0
            &&& content.skip(iso_at) == iso
            &&& loader_end <= i < dol_at || dol_end <= i < fst_at || fst_at + 36 <= i < iso_at
                ==> content[i] == 0
        }),
{
    let al = inputs.apploader@.len() as int;
    let dl = inputs.main_dol@.len() as int;
    let n = iso.len() as int;
    let (id, title) = (inputs.game_id@, inputs.disc_title@);
    let (dol_at, fst_at, iso_at) = (dol_off(al), fst_off(al, dl), iso_off(al, dl));
    let sys = sys_image(id, title, inputs.apploader@, inputs.main_dol@, n);
    let boot = boot_image(id, title, dol_at, fst_at);
    let fst = fst_image(iso_at, n);
    logical_layout_is_ordered(al, dl);
    sys_image_holds_the_files(id, title, inputs.apploader@, inputs.main_dol@, n);
    boot_image_holds_the_offsets(id, title, dol_at, fst_at);
    fst_image_holds_the_file(iso_at, n);
    assert(dol_at % 4 == 0 && fst_at % 4 == 0 && iso_at % 4 == 0);
    lemma_follow_offsets(sys, iso, boot, fst, dol_at, inputs.main_dol@, fst_at, iso_at);
    lemma_in_front(sys, iso, 0x2440, 0x2440 + al);
    if 0x2440 + al <= i < dol_at || dol_at + dl <= i < fst_at || fst_at + 36 <= i < iso_at {
        lemma_gaps(boot, inputs.apploader@, dol_at, inputs.main_dol@, fst_at, fst, iso_at, i);
        assert(sys[i] == 0);
        assert((sys + iso)[i] == sys[i]);
    }
}

proof fn lemma_in_front(a: Seq<u8>, b: Seq<u8>, lo: int, hi: int)
    requires
        0 <= lo <= hi <= a.len(),
    ensures
        (a + b).subrange(lo, hi) == a.subrange(lo, hi),
{
    assert((a + b).subrange(lo, hi) =~= a.subrange(lo, hi));
}

proof fn lemma_gaps(
    boot: Seq<u8>,
    apploader: Seq<u8>,
    dol_at: int,
    dol: Seq<u8>,
    fst_at: int,
    fst: Seq<u8>,
    iso_at: int,
    i: int,
)
    requires
        boot.len() == 0x2440,
        fst.len() == 36,
        0x2440 + apploader.len() <= dol_at,
        dol_at + dol.len() <= fst_at,
        fst_at + 36 <= iso_at,
        0x2440 + apploader.len() <= i < dol_at || dol_at + dol.len() <= i < fst_at || fst_at + 36
            <= i < iso_at,
    ensures
        (boot + apploader + zeros((dol_at - 0x2440 - apploader.len()) as nat) + dol + zeros(
            (fst_at - dol_at - dol.len()) as nat,
        ) + fst + zeros((iso_at - fst_at - 36) as nat))[i] == 0,
{
}

/// A disc reader that strips the hash block of 0x400 bytes off every sector of 0x8000 finds the
/// logical data in the data region, byte for byte.
pub proof fn stripped_data_region_is_the_logical_data(content: Seq<u8>, l: int)
    requires
        0 <= l < content.len(),
    ensures
        ({
            let total = clusters_for(content.len() as int);
            let data = data_region(content, total, groups_for(total));
            &&& data.len() == total * 0x8000
            &&& (total - 1) * 0x7C00 < content.len() <= total * 0x7C00
            &&& data[l / 0x7C00 * 0x8000 + 0x400 + l % 0x7C00] == content[l]
        }),
{
    data_region_reads_back(content, l);
}

/// Every sector of an authored disc validates: the 31 digests at its start are the SHA-1 of its blocks
/// of 0x400 bytes; of the eight digests at 0x280 the one for its place among eight sectors is the
/// SHA-1 of the first 0x26C bytes; of the eight at 0x340 the one for its place among eight such
/// eights is the SHA-1 of the 0xA0 bytes at 0x280; and the SHA-1 of the 0xA0 bytes at 0x340 is what
/// the `H3` table has for its 64 sectors.
pub proof fn authored_sectors_pass_every_level(content: Seq<u8>, ci: int, j: int)
    requires
        content.len() <= 9_985_392_640,
        0 <= ci,
        ci * 0x7C00 < content.len(),
        0 <= j < 31,
    ensures
        ({
            let total = clusters_for(content.len() as int);
            let groups = groups_for(total);
            let sector = data_region(content, total, groups).subrange(
                ci * 0x8000,
                (ci + 1) * 0x8000,
            );
            let table = h3_table(content, groups);
            let (g, s, k) = (ci / 64, ci % 64 / 8, ci % 8);
            &&& sector.subrange(j * 20, j * 20 + 20) == sha1_of(
                sector.subrange(0x400 + j * 0x400, 0x800 + j * 0x400),
            )
            &&& sector.subrange(0x280 + k * 20, 0x294 + k * 20) == sha1_of(sector.take(0x26C))
            &&& sector.subrange(0x340 + s * 20, 0x354 + s * 20) == sha1_of(
                sector.subrange(0x280, 0x320),
            )
            &&& table.len() == 0x1_8000
            &&& table.subrange(g * 20, g * 20 + 20) == sha1_of(sector.subrange(0x340, 0x3E0))
        }),
{
    assert(ci < clusters_for(content.len() as int));
    authored_sectors_validate(content, ci, j);
    let total = clusters_for(content.len() as int);
    super::accepted_sizes_fit_the_h3_table(content.len() as int);
    super::h3_table_covers_every_group(content, groups_for(total), ci / 64);
    assert(ci % 64 % 8 == ci % 8);
}

/// A disc for an image is refused exactly where its certificate chain runs into the `H3` table, where
/// the image has a size that 32 bits do not hold, or where the logical data is more than the 4915
/// hash groups of an `H3` table carry.
pub proof fn a_disc_is_refused_only_beyond_its_limits(inputs: GcDiscInputs, iso_size: int)
    requires
        0 <= iso_size,
    ensures
        gc_disc_error(inputs, iso_size) is None <==> {
            &&& inputs.cert_chain@.len() <= 0x7B20
            &&& iso_size <= 0xFFFF_FFFF
            &&& inputs.iso_at() + iso_size <= 4915 * 0x1F_0000
        },
{
    logical_layout_is_ordered(inputs.apploader@.len() as int, inputs.main_dol@.len() as int);
}

/// An authored disc ends where its last sector does. Its one partition begins at 0xF800000, and what
/// the packer is told of it counts the same bytes in sectors.
pub proof fn authored_disc_measures_up(d: AuthoredDisc, inputs: GcDiscInputs, total: int, h3: Seq<u8>)
    requires
        d.is_authored(inputs, total, h3),
        0 <= total <= 4915 * 64,
        inputs.cert_chain@.len() <= 0x7B20,
        h3.len() == 0x1_8000,
    ensures
        ({
            let part = d.plan.partitions@[0];
            let header = d.partition_header@;
            &&& d.plan.partitions@.len() == 1
            &&& part.start_sector * 0x8000 == 0xF80_0000
            &&& part.data_start_sector * 0x8000 == part.start_sector * 0x8000 + header.len()
            &&& part.data_end_sector * 0x8000 == d.disc_size
            &&& d.disc_size == 0xF82_0000 + total * 0x8000
            &&& 4 * be32_at(d.disc_header@, 4 * be32_at(d.disc_header@, 0x4_0004))
                == part.start_sector * 0x8000
            &&& 4 * be32_at(header, 0x2BC) == total * 0x8000
            &&& header.take(0x2A4) == d.rvlt_ticket@
            &&& header.subrange(0x2C0, 0x4C8) == d.rvlt_tmd@
            &&& d.rvlt_tmd@.subrange(0x1F4, 0x208) == sha1_of(h3)
            &&& d.plan.rvlt_content_hash matches Some(h) && h@ == sha1_of(h3)
            &&& be64_at(d.rvlt_ticket@, 0x1DC) == be64_at(d.rvlt_tmd@, 0x18C)
            &&& part.header_patches@.len() == 0
            &&& part.edits@.len() == 0
            &&& part.stored_data_groups@.len() == 0
            &&& d.plan.disc_patches@.len() == 0
        }),
{
    let id = disc_title_id(inputs.game_id@);
    let hash = sha1_of(h3);
    ticket_reads_back(id);
    tmd_reads_back(id, hash);
    disc_header_leads_to_the_partition(inputs.game_id@, inputs.disc_title@);
    partition_header_leads_to_its_parts(
        d.rvlt_ticket@,
        d.rvlt_tmd@,
        inputs.cert_chain@,
        h3,
        total * 0x8000,
    );
    super::partition_header_is_consistent(inputs, h3, total);
}

} // verus!
