//! The byte images of the synthetic disc: headers, ticket, TMD and the system part of its data.

use crate::bytes::{
    aligned_up, aligned_up_is_least, align_up, append_bytes, ascending_fields_are_apart, be16,
    be32, be32_at, be64, field, fields_ascend, layout, layout_reads_back, overlaid, pad_to, place,
    put, put_u16, put_u32, put_u64, zeroed, zeros, Field,
};
use crate::error::{Error, ErrorView};
use crate::hash_tree::GROUP_LOGICAL_SIZE;
use crate::text::{ascii, ascii_of, dec, dec_text};
use vstd::prelude::*;
use vstd::slice::slice_subrange;
use vstd::utf8::encode_utf8;

verus! {

/// Absolute offset of the data partition: the retail single-layer one.
pub const PART_ABS: u64 = 0xF80_0000;

/// Absolute offset of the partition table.
pub const PARTITION_TABLE_ABS: usize = 0x4_0000;

/// Absolute offset of the region info.
pub const REGION_INFO_ABS: usize = 0x4_E000;

/// Bytes of the disc before the partition that are stored.
pub const DISC_HEADER_LEN: usize = 0x5_0000;

/// The ticket id that every authored ticket carries.
pub const REF_TICKET_ID: u64 = 0x0001_B7C5_B7D2_80B4;

/// The content size that every authored TMD carries.
pub const REF_TMD_CONTENT_SIZE: u64 = 0xFF7C_0000;

/// The disc magic at the start of the header.
pub const DISC_MAGIC_WII: u32 = 0x5D1C_9EA3;

/// The disc magic at the end of the header area.
pub const DISC_MAGIC2: u32 = 0xC3F8_1A8E;

/// Wii signature type: RSA-2048 with SHA-1.
pub const WII_SIG_RSA2048_SHA1: u32 = 0x0001_0001;

/// Length of a Wii ticket.
pub const TICKET_LEN: usize = 0x2A4;

/// Length of a Wii TMD with one content.
pub const TMD_LEN: usize = 0x208;

/// Offset of the TMD in the partition.
pub const TMD_PART_OFF: usize = 0x2C0;

/// Offset of the certificate chain in the partition.
pub const CERT_PART_OFF: usize = 0x4E0;

/// Offset of the `H3` table in the partition.
pub const H3_PART_OFF: usize = 0x8000;

/// Offset of the data in the partition.
pub const DATA_PART_OFF: usize = 0x2_0000;

/// Length of `boot.bin` and `bi2.bin`: where the apploader begins.
pub const APPLOADER_OFF: usize = 0x2440;

/// The encrypted title key that every authored ticket carries. The partition is stored decrypted,
/// so nothing is ever decrypted with it.
pub open spec fn ref_title_key() -> Seq<u8> {
    seq![
        0xFBu8,
        0x1A,
        0x55,
        0xB4,
        0xA6,
        0xB6,
        0x5C,
        0x46,
        0x8B,
        0x91,
        0xEF,
        0x66,
        0x29,
        0xD7,
        0x6E,
        0x8F,
    ]
}

/// The region-info value for the region character of a game id: 0 is NTSC-J, 1 NTSC-U, 2 PAL and
/// 4 NTSC-K. Letters that are not known count as NTSC-J.
pub open spec fn region_info(c: u8) -> u32 {
    let c = c as char;
    if c == 'E' || c == 'N' {
        1
    } else if c == 'D' || c == 'F' || c == 'I' || c == 'L' || c == 'M' || c == 'P' || c == 'R' || c
        == 'S' || c == 'U' || c == 'V' || c == 'X' || c == 'Y' || c == 'Z' {
        2
    } else if c == 'K' || c == 'Q' || c == 'T' {
        4
    } else {
        0
    }
}

/// The region-info value for the region character of a game id.
pub fn region_info_for(region_char: u8) -> (r: u32)
    ensures
        r == region_info(region_char),
{
    match region_char as char {
        'E' | 'N' => 1,
        'D' | 'F' | 'I' | 'L' | 'M' | 'P' | 'R' | 'S' | 'U' | 'V' | 'X' | 'Y' | 'Z' => 2,
        'K' | 'Q' | 'T' => 4,
        _ => 0,
    }
}

/// Whether a region character is one of those that are known.
pub fn knows_region(region_char: u8) -> (r: bool)
    ensures
        r == (region_char as char == 'J' || region_char as char == 'W' || region_info(region_char)
            != 0),
{
    let c = region_char as char;
    c == 'J' || c == 'W' || region_info_for(region_char) != 0
}

/// The message for a value that no 32-bit field holds.
pub open spec fn u32_field_message(what: Seq<char>, v: nat) -> Seq<char> {
    what + " ("@ + dec(v) + " bytes) does not fit the disc's 32-bit field"@
}

/// Narrow an offset or size to the 32 bits that the disc format has for it.
pub fn u32_field(what: &str, v: u64) -> (r: Result<u32, Error>)
    ensures
        r is Ok <==> v <= u32::MAX,
        r matches Ok(n) ==> n == v,
        r matches Err(e) ==> e@ == ErrorView::FormatLimit(u32_field_message(what@, v as nat)),
{
    if v <= 0xFFFF_FFFF {
        Ok(v as u32)
    } else {
        let mut m = what.to_owned();
        m.append(" (");
        m.append(dec_text(v).as_str());
        m.append(" bytes) does not fit the disc's 32-bit field");
        Err(Error::FormatLimit(m))
    }
}

/// The bytes of the disc FST: the root directory, the `game.iso` entry and the name table.
pub open spec fn fst_image(iso_data_off: int, iso_size: int) -> Seq<u8> {
    seq![1u8, 0, 0, 0] + be32(0) + be32(2) + seq![0u8, 0, 0, 0] + be32((iso_data_off / 4) as u32)
        + be32(iso_size as u32) + ascii("game.iso"@) + zeros(4)
}

/// Why no FST can be built, if none can.
pub open spec fn fst_error(iso_data_off: int, iso_size: int) -> Option<ErrorView> {
    if iso_data_off / 4 > u32::MAX {
        Some(
            ErrorView::FormatLimit(
                u32_field_message("game.iso offset"@, (iso_data_off / 4) as nat),
            ),
        )
    } else if iso_size > u32::MAX {
        Some(ErrorView::FormatLimit(u32_field_message("game.iso size"@, iso_size as nat)))
    } else {
        None
    }
}

/// Build the disc filesystem table for the single file `game.iso`. Its offset is stored divided
/// by four.
pub fn build_fst(iso_data_off: u64, iso_size: u64) -> (r: Result<Vec<u8>, Error>)
    ensures
        match r {
            Ok(v) => fst_error(iso_data_off as int, iso_size as int) is None && v@ == fst_image(
                iso_data_off as int,
                iso_size as int,
            ) && v@.len() == 36,
            Err(e) => fst_error(iso_data_off as int, iso_size as int) == Some(e@),
        },
{
    let off_field = match u32_field("game.iso offset", iso_data_off / 4) {
        Ok(v) => v,
        Err(e) => return Err(e),
    };
    let size_field = match u32_field("game.iso size", iso_size) {
        Ok(v) => v,
        Err(e) => return Err(e),
    };
    proof {
        reveal_strlit("game.iso");
    }
    let mut v = zeroed(36);
    v.set(0, 1);
    put_u32(&mut v, 8, 2);
    put_u32(&mut v, 16, off_field);
    put_u32(&mut v, 20, size_field);
    let name = ascii_of("game.iso");
    put(&mut v, 24, name.as_slice());
    assert(v@ =~= fst_image(iso_data_off as int, iso_size as int));
    Ok(v)
}

/// What a title field of `room` bytes holds: the title's bytes, cut so that at least one zero
/// follows.
pub open spec fn title_field(title: Seq<char>, room: int) -> Seq<u8> {
    let b = encode_utf8(title);
    if b.len() < room {
        b
    } else {
        b.take(room - 1)
    }
}

/// Write a title into the `room` bytes at `off`.
pub fn write_title(dst: &mut Vec<u8>, off: usize, room: usize, title: &str)
    requires
        room > 0,
        off + room <= old(dst)@.len(),
    ensures
        final(dst)@ == place(old(dst)@, off as int, title_field(title@, room as int)),
{
    let total = dst.len();
    let b = title.as_bytes();
    if b.len() < room {
        put(dst, off, b);
    } else {
        let cut = slice_subrange(b, 0, room - 1);
        assert(cut@ =~= title_field(title@, room as int));
        put(dst, off, cut);
    }
}

/// The title id of the synthetic disc: a disc title whose code is the first four bytes of the
/// game id.
pub open spec fn disc_title_id(game_id: Seq<u8>) -> u64 {
    (0x0001_0000_0000_0000 + be32_at(game_id, 0)) as u64
}

/// The title id of the synthetic disc.
pub fn wii_disc_title_id(game_id: &[u8; 6]) -> (r: u64)
    ensures
        r == disc_title_id(game_id@),
{
    let code = crate::bytes::be32_from(game_id.as_slice(), 0);
    0x0001_0000_0000_0000 + code as u64
}

/// The fields of the synthetic disc's ticket.
pub open spec fn ticket_fields(title_id: u64) -> Seq<Field> {
    seq![
        field(0, be32(WII_SIG_RSA2048_SHA1)),
        field(0x140, ascii("Root-CA00000001-XS00000003"@)),
        field(0x1BF, ref_title_key()),
        field(0x1D0, be64(REF_TICKET_ID)),
        field(0x1DC, be64(title_id)),
        field(0x1E4, be16(0xFFFF)),
        field(0x222, Seq::new(0x20, |i: int| 0xFFu8)),
        field(0x24C, seq![0x02u8]),
    ]
}

/// The synthetic disc's ticket.
pub open spec fn ticket_image(title_id: u64) -> Seq<u8> {
    layout(TICKET_LEN as nat, ticket_fields(title_id))
}

/// Build a minimal fakesigned Wii ticket.
pub fn build_wii_ticket(title_id: u64) -> (r: Vec<u8>)
    ensures
        r@ == ticket_image(title_id),
        r@.len() == TICKET_LEN,
{
    proof {
        reveal_strlit("Root-CA00000001-XS00000003");
        reveal_with_fuel(overlaid, 9);
    }
    let mut t = zeroed(TICKET_LEN);
    put_u32(&mut t, 0, WII_SIG_RSA2048_SHA1);
    let issuer = ascii_of("Root-CA00000001-XS00000003");
    put(&mut t, 0x140, issuer.as_slice());
    let key = [
        0xFBu8,
        0x1A,
        0x55,
        0xB4,
        0xA6,
        0xB6,
        0x5C,
        0x46,
        0x8B,
        0x91,
        0xEF,
        0x66,
        0x29,
        0xD7,
        0x6E,
        0x8F,
    ];
    assert(key@ =~= ref_title_key());
    put(&mut t, 0x1BF, key.as_slice());
    put_u64(&mut t, 0x1D0, REF_TICKET_ID);
    put_u64(&mut t, 0x1DC, title_id);
    put_u16(&mut t, 0x1E4, 0xFFFF);
    let mask = vec![0xFFu8; 0x20];
    assert(mask@ =~= Seq::new(0x20, |i: int| 0xFFu8));
    put(&mut t, 0x222, mask.as_slice());
    let stray = [0x02u8];
    assert(stray@ =~= seq![0x02u8]);
    put(&mut t, 0x24C, stray.as_slice());
    t
}

/// The fields of the synthetic disc's TMD.
pub open spec fn tmd_fields(title_id: u64, h3_hash: Seq<u8>) -> Seq<Field> {
    seq![
        field(0, be32(WII_SIG_RSA2048_SHA1)),
        field(0x140, ascii("Root-CA00000001-CP00000004"@)),
        field(0x184, be64(0x0000_0001_0000_0023)),
        field(0x18C, be64(title_id)),
        field(0x194, be32(1)),
        field(0x198, ascii("01"@)),
        field(0x19A, seq![0x03u8]),
        field(0x1DE, be16(1)),
        field(0x1EA, be16(3)),
        field(0x1EC, be64(REF_TMD_CONTENT_SIZE)),
        field(0x1F4, h3_hash),
    ]
}

/// The synthetic disc's TMD.
pub open spec fn tmd_image(title_id: u64, h3_hash: Seq<u8>) -> Seq<u8> {
    layout(TMD_LEN as nat, tmd_fields(title_id, h3_hash))
}

/// Build a minimal fakesigned Wii TMD with a single content whose hash is that of the `H3` table.
pub fn build_wii_tmd(title_id: u64, h3_hash: &[u8; 20]) -> (r: Vec<u8>)
    ensures
        r@ == tmd_image(title_id, h3_hash@),
        r@.len() == TMD_LEN,
{
    proof {
        reveal_strlit("Root-CA00000001-CP00000004");
        reveal_strlit("01");
        reveal_with_fuel(overlaid, 12);
    }
    let mut m = zeroed(TMD_LEN);
    put_u32(&mut m, 0, WII_SIG_RSA2048_SHA1);
    let issuer = ascii_of("Root-CA00000001-CP00000004");
    put(&mut m, 0x140, issuer.as_slice());
    put_u64(&mut m, 0x184, 0x0000_0001_0000_0023);
    put_u64(&mut m, 0x18C, title_id);
    put_u32(&mut m, 0x194, 1);
    let group_id = ascii_of("01");
    put(&mut m, 0x198, group_id.as_slice());
    let area = [0x03u8];
    assert(area@ =~= seq![0x03u8]);
    put(&mut m, 0x19A, area.as_slice());
    put_u16(&mut m, 0x1DE, 1);
    put_u16(&mut m, 0x1EA, 3);
    put_u64(&mut m, 0x1EC, REF_TMD_CONTENT_SIZE);
    put(&mut m, 0x1F4, h3_hash.as_slice());
    m
}

/// The fields of the disc header.
pub open spec fn disc_header_fields(game_id: Seq<u8>, title: Seq<char>) -> Seq<Field> {
    seq![
        field(0, game_id),
        field(0x18, be32(DISC_MAGIC_WII)),
        field(0x20, title_field(title, 0x40)),
        field(0x4_0000, be32(1)),
        field(0x4_0004, be32(0x1_0008)),
        field(0x4_000C, be32(8)),
        field(0x4_0020, be32(0x3E0_0000)),
        field(0x4_800C, be32(9)),
        field(0x4_E000, be32(region_info(game_id[3]))),
        field(0x4_FFFC, be32(DISC_MAGIC2)),
    ]
}

/// The disc header.
pub open spec fn disc_header_image(game_id: Seq<u8>, title: Seq<char>) -> Seq<u8> {
    layout(DISC_HEADER_LEN as nat, disc_header_fields(game_id, title))
}

/// Build the disc header: id, magic and title, a partition table with one DATA partition, and the
/// region info that the game id's region character stands for.
pub fn build_disc_header(game_id: &[u8; 6], disc_title: &str) -> (r: Vec<u8>)
    ensures
        r@ == disc_header_image(game_id@, disc_title@),
        r@.len() == DISC_HEADER_LEN,
{
    proof {
        reveal_with_fuel(overlaid, 11);
    }
    let mut p = zeroed(DISC_HEADER_LEN);
    put(&mut p, 0, game_id.as_slice());
    put_u32(&mut p, 0x18, DISC_MAGIC_WII);
    write_title(&mut p, 0x20, 0x40, disc_title);
    let pt = PARTITION_TABLE_ABS;
    put_u32(&mut p, pt, 1);
    put_u32(&mut p, pt + 4, 0x1_0008);
    put_u32(&mut p, pt + 0x0C, 8);
    put_u32(&mut p, pt + 0x20, (PART_ABS / 4) as u32);
    put_u32(&mut p, 0x4_800C, 9);
    put_u32(&mut p, REGION_INFO_ABS, region_info_for(game_id[3]));
    put_u32(&mut p, 0x4_FFFC, DISC_MAGIC2);
    p
}

/// The fields of the partition header.
pub open spec fn partition_header_fields(
    ticket: Seq<u8>,
    tmd: Seq<u8>,
    cert_chain: Seq<u8>,
    h3_table: Seq<u8>,
    data_size: int,
) -> Seq<Field> {
    seq![
        field(0, ticket),
        field(0x2A4, be32(tmd.len() as u32)),
        field(0x2A8, be32(0xB0)),
        field(0x2AC, be32(cert_chain.len() as u32)),
        field(0x2B0, be32(0x138)),
        field(0x2B4, be32(0x2000)),
        field(0x2B8, be32(0x8000)),
        field(0x2BC, be32((data_size / 4) as u32)),
        field(0x2C0, tmd),
        field(0x4E0, cert_chain),
        field(0x8000, h3_table),
    ]
}

/// The partition header.
pub open spec fn partition_header_image(
    ticket: Seq<u8>,
    tmd: Seq<u8>,
    cert_chain: Seq<u8>,
    h3_table: Seq<u8>,
    data_size: int,
) -> Seq<u8> {
    layout(
        DATA_PART_OFF as nat,
        partition_header_fields(ticket, tmd, cert_chain, h3_table, data_size),
    )
}

/// Build the partition header: ticket, offset table, TMD, certificate chain and `H3` table.
pub fn build_partition_header(
    ticket: &[u8],
    tmd: &[u8],
    cert_chain: &[u8],
    h3_table: &[u8],
    data_size: u64,
) -> (r: Result<Vec<u8>, Error>)
    requires
        ticket@.len() <= DATA_PART_OFF,
        TMD_PART_OFF + tmd@.len() <= DATA_PART_OFF,
        CERT_PART_OFF + cert_chain@.len() <= DATA_PART_OFF,
        H3_PART_OFF + h3_table@.len() <= DATA_PART_OFF,
    ensures
        match r {
            Ok(v) => data_size / 4 <= u32::MAX && v@ == partition_header_image(
                ticket@,
                tmd@,
                cert_chain@,
                h3_table@,
                data_size as int,
            ) && v@.len() == DATA_PART_OFF,
            Err(e) => data_size / 4 > u32::MAX && e@ == ErrorView::FormatLimit(
                u32_field_message("partition data size"@, (data_size / 4) as nat),
            ),
        },
{
    proof {
        reveal_with_fuel(overlaid, 12);
    }
    let mut p = zeroed(DATA_PART_OFF);
    put(&mut p, 0, ticket);
    put_u32(&mut p, 0x2A4, tmd.len() as u32);
    put_u32(&mut p, 0x2A8, (TMD_PART_OFF / 4) as u32);
    put_u32(&mut p, 0x2AC, cert_chain.len() as u32);
    put_u32(&mut p, 0x2B0, (CERT_PART_OFF / 4) as u32);
    put_u32(&mut p, 0x2B4, (H3_PART_OFF / 4) as u32);
    put_u32(&mut p, 0x2B8, (DATA_PART_OFF / 4) as u32);
    let size_field = match u32_field("partition data size", data_size / 4) {
        Ok(v) => v,
        Err(e) => return Err(e),
    };
    put_u32(&mut p, 0x2BC, size_field);
    put(&mut p, TMD_PART_OFF, tmd);
    put(&mut p, CERT_PART_OFF, cert_chain);
    put(&mut p, H3_PART_OFF, h3_table);
    Ok(p)
}

/// Where `main.dol` begins in the logical data.
pub open spec fn dol_off(apploader_len: int) -> int {
    aligned_up(APPLOADER_OFF + apploader_len, 0x20)
}

/// Where the FST begins in the logical data.
pub open spec fn fst_off(apploader_len: int, dol_len: int) -> int {
    aligned_up(dol_off(apploader_len) + dol_len, 0x20)
}

/// Where `game.iso` begins in the logical data: on a hash-group boundary behind the FST.
pub open spec fn iso_off(apploader_len: int, dol_len: int) -> int {
    aligned_up(fst_off(apploader_len, dol_len) + 36, GROUP_LOGICAL_SIZE as int)
}

/// The places in the logical data come in order, aligned, and none runs into the next.
pub proof fn logical_layout_is_ordered(apploader_len: int, dol_len: int)
    requires
        apploader_len >= 0,
        dol_len >= 0,
    ensures
        APPLOADER_OFF + apploader_len <= dol_off(apploader_len) < APPLOADER_OFF + apploader_len
            + 0x20,
        dol_off(apploader_len) % 0x20 == 0,
        dol_off(apploader_len) + dol_len <= fst_off(apploader_len, dol_len) < dol_off(apploader_len)
            + dol_len + 0x20,
        fst_off(apploader_len, dol_len) % 0x20 == 0,
        fst_off(apploader_len, dol_len) + 36 <= iso_off(apploader_len, dol_len) < fst_off(
            apploader_len,
            dol_len,
        ) + 36 + GROUP_LOGICAL_SIZE,
        iso_off(apploader_len, dol_len) % GROUP_LOGICAL_SIZE as int == 0,
{
    aligned_up_is_least(APPLOADER_OFF + apploader_len, 0x20);
    aligned_up_is_least(dol_off(apploader_len) + dol_len, 0x20);
    aligned_up_is_least(fst_off(apploader_len, dol_len) + 36, GROUP_LOGICAL_SIZE as int);
}

/// The fields of `boot.bin` and `bi2.bin`. The offsets are stored divided by four.
pub open spec fn boot_fields(
    game_id: Seq<u8>,
    title: Seq<char>,
    dol_at: int,
    fst_at: int,
) -> Seq<Field> {
    seq![
        field(0, game_id),
        field(0x18, be32(DISC_MAGIC_WII)),
        field(0x20, title_field(title, 0x40)),
        field(0x60, be32(0x0101_0000)),
        field(0x420, be32((dol_at / 4) as u32)),
        field(0x424, be32((fst_at / 4) as u32)),
        field(0x428, be32(9)),
        field(0x42C, be32(9)),
        field(0x430, be32(0x803F_FF60)),
        field(0x434, be32(0x0006_0000)),
        field(0x438, be32(0x0424_FFF8)),
        field(0x45C, be32(1)),
        field(0x460, be32(1)),
        field(0x464, be32(5)),
        field(0x46C, be32(0x0400_0000)),
        field(0x470, be32(0x7ED4_0000)),
    ]
}

/// `boot.bin` and `bi2.bin`.
pub open spec fn boot_image(
    game_id: Seq<u8>,
    title: Seq<char>,
    dol_at: int,
    fst_at: int,
) -> Seq<u8> {
    layout(APPLOADER_OFF as nat, boot_fields(game_id, title, dol_at, fst_at))
}

/// The system part of the logical partition data: everything before `game.iso`.
pub open spec fn sys_image(
    game_id: Seq<u8>,
    title: Seq<char>,
    apploader: Seq<u8>,
    main_dol: Seq<u8>,
    iso_size: int,
) -> Seq<u8> {
    let dol_at = dol_off(apploader.len() as int);
    let fst_at = fst_off(apploader.len() as int, main_dol.len() as int);
    let iso_at = iso_off(apploader.len() as int, main_dol.len() as int);
    boot_image(game_id, title, dol_at, fst_at) + apploader + zeros(
        (dol_at - APPLOADER_OFF - apploader.len()) as nat,
    ) + main_dol + zeros((fst_at - dol_at - main_dol.len()) as nat) + fst_image(iso_at, iso_size)
        + zeros((iso_at - fst_at - 36) as nat)
}

/// Build `boot.bin` and `bi2.bin`.
fn build_boot(game_id: &[u8; 6], disc_title: &str, dol_field: u32, fst_field: u32) -> (r: Vec<u8>)
    ensures
        r@ == boot_image(game_id@, disc_title@, dol_field * 4, fst_field * 4),
        r@.len() == APPLOADER_OFF,
{
    let ghost fields = boot_fields(game_id@, disc_title@, dol_field * 4, fst_field * 4);
    let ghost start = zeros(APPLOADER_OFF as nat);
    let mut sys = zeroed(APPLOADER_OFF);
    assert(sys@ == overlaid(start, fields, 0));
    put(&mut sys, 0, game_id.as_slice());
    assert(sys@ == overlaid(start, fields, 1));
    put_u32(&mut sys, 0x18, DISC_MAGIC_WII);
    assert(sys@ == overlaid(start, fields, 2));
    write_title(&mut sys, 0x20, 0x40, disc_title);
    assert(sys@ == overlaid(start, fields, 3));
    put_u32(&mut sys, 0x60, 0x0101_0000);
    assert(sys@ == overlaid(start, fields, 4));
    put_u32(&mut sys, 0x420, dol_field);
    assert(sys@ == overlaid(start, fields, 5));
    put_u32(&mut sys, 0x424, fst_field);
    assert(sys@ == overlaid(start, fields, 6));
    put_u32(&mut sys, 0x428, 9);
    assert(sys@ == overlaid(start, fields, 7));
    put_u32(&mut sys, 0x42C, 9);
    assert(sys@ == overlaid(start, fields, 8));
    put_u32(&mut sys, 0x430, 0x803F_FF60);
    assert(sys@ == overlaid(start, fields, 9));
    put_u32(&mut sys, 0x434, 0x0006_0000);
    assert(sys@ == overlaid(start, fields, 10));
    put_u32(&mut sys, 0x438, 0x0424_FFF8);
    assert(sys@ == overlaid(start, fields, 11));
    put_u32(&mut sys, 0x45C, 1);
    assert(sys@ == overlaid(start, fields, 12));
    put_u32(&mut sys, 0x460, 1);
    assert(sys@ == overlaid(start, fields, 13));
    put_u32(&mut sys, 0x464, 5);
    assert(sys@ == overlaid(start, fields, 14));
    put_u32(&mut sys, 0x46C, 0x0400_0000);
    assert(sys@ == overlaid(start, fields, 15));
    put_u32(&mut sys, 0x470, 0x7ED4_0000);
    assert(sys@ == overlaid(start, fields, 16));
    sys
}

/// Assemble the system part of the logical partition data and say where `game.iso` begins.
pub fn build_sys_blob(
    game_id: &[u8; 6],
    disc_title: &str,
    apploader: &[u8],
    main_dol: &[u8],
    iso_size: u64,
) -> (r: Result<(Vec<u8>, u64), Error>)
    requires
        apploader@.len() + main_dol@.len() + 0x20_0000 <= usize::MAX,
    ensures
        ({
            let at = iso_off(apploader@.len() as int, main_dol@.len() as int);
            match r {
                Ok((blob, off)) => {
                    &&& fst_error(at, iso_size as int) is None
                    &&& blob@ == sys_image(
                        game_id@,
                        disc_title@,
                        apploader@,
                        main_dol@,
                        iso_size as int,
                    )
                    &&& blob@.len() == at
                    &&& off == at
                },
                Err(e) => fst_error(at, iso_size as int) == Some(e@),
            }
        }),
{
    proof {
        logical_layout_is_ordered(apploader@.len() as int, main_dol@.len() as int);
    }
    let dol_at = align_up(APPLOADER_OFF as u64 + apploader.len() as u64, 0x20);
    let fst_at = align_up(dol_at + main_dol.len() as u64, 0x20);
    let iso_at = align_up(fst_at + 36, GROUP_LOGICAL_SIZE as u64);
    let fst = match build_fst(iso_at, iso_size) {
        Ok(v) => v,
        Err(e) => return Err(e),
    };
    let mut sys = build_boot(game_id, disc_title, (dol_at / 4) as u32, (fst_at / 4) as u32);
    append_bytes(&mut sys, apploader);
    pad_to(&mut sys, dol_at as usize);
    append_bytes(&mut sys, main_dol);
    pad_to(&mut sys, fst_at as usize);
    append_bytes(&mut sys, fst.as_slice());
    pad_to(&mut sys, iso_at as usize);
    assert(sys@ =~= sys_image(game_id@, disc_title@, apploader@, main_dol@, iso_size as int));
    Ok((sys, iso_at))
}

/// `boot.bin` holds the offsets of `main.dol` and of the FST, divided by four.
pub proof fn boot_image_holds_the_offsets(
    game_id: Seq<u8>,
    title: Seq<char>,
    dol_at: int,
    fst_at: int,
)
    requires
        game_id.len() == 6,
    ensures
        boot_image(game_id, title, dol_at, fst_at).len() == APPLOADER_OFF,
        boot_image(game_id, title, dol_at, fst_at).subrange(0x420, 0x424) == be32(
            (dol_at / 4) as u32,
        ),
        boot_image(game_id, title, dol_at, fst_at).subrange(0x424, 0x428) == be32(
            (fst_at / 4) as u32,
        ),
{
    let fields = boot_fields(game_id, title, dol_at, fst_at);
    assert(fields_ascend(APPLOADER_OFF as nat, fields));
    ascending_fields_are_apart(APPLOADER_OFF as nat, fields);
    layout_reads_back(APPLOADER_OFF as nat, fields);
    assert(fields[4].off == 0x420 && fields[5].off == 0x424);
}

/// The FST holds the offset of `game.iso`, divided by four, and its size.
pub proof fn fst_image_holds_the_file(iso_data_off: int, iso_size: int)
    ensures
        fst_image(iso_data_off, iso_size).len() == 36,
        fst_image(iso_data_off, iso_size).subrange(16, 20) == be32((iso_data_off / 4) as u32),
        fst_image(iso_data_off, iso_size).subrange(20, 24) == be32(iso_size as u32),
{
    reveal_strlit("game.iso");
    let fst = fst_image(iso_data_off, iso_size);
    assert(fst.subrange(16, 20) =~= be32((iso_data_off / 4) as u32));
    assert(fst.subrange(20, 24) =~= be32(iso_size as u32));
}

/// The system part of the logical data holds its files at their places.
pub proof fn sys_image_holds_the_files(
    game_id: Seq<u8>,
    title: Seq<char>,
    apploader: Seq<u8>,
    main_dol: Seq<u8>,
    iso_size: int,
)
    requires
        game_id.len() == 6,
    ensures
        ({
            let sys = sys_image(game_id, title, apploader, main_dol, iso_size);
            let dol_at = dol_off(apploader.len() as int);
            let fst_at = fst_off(apploader.len() as int, main_dol.len() as int);
            let iso_at = iso_off(apploader.len() as int, main_dol.len() as int);
            &&& sys.len() == iso_at
            &&& sys.take(APPLOADER_OFF as int) == boot_image(game_id, title, dol_at, fst_at)
            &&& sys.subrange(APPLOADER_OFF as int, APPLOADER_OFF + apploader.len()) == apploader
            &&& sys.subrange(dol_at, dol_at + main_dol.len()) == main_dol
            &&& sys.subrange(fst_at, fst_at + 36) == fst_image(iso_at, iso_size)
        }),
{
    let dol_at = dol_off(apploader.len() as int);
    let fst_at = fst_off(apploader.len() as int, main_dol.len() as int);
    let iso_at = iso_off(apploader.len() as int, main_dol.len() as int);
    logical_layout_is_ordered(apploader.len() as int, main_dol.len() as int);
    boot_image_holds_the_offsets(game_id, title, dol_at, fst_at);
    fst_image_holds_the_file(iso_at, iso_size);
    let boot = boot_image(game_id, title, dol_at, fst_at);
    let fst = fst_image(iso_at, iso_size);
    lemma_sys_parts(boot, apploader, dol_at, main_dol, fst_at, fst, iso_at);
}

proof fn lemma_sys_parts(
    boot: Seq<u8>,
    apploader: Seq<u8>,
    dol_at: int,
    main_dol: Seq<u8>,
    fst_at: int,
    fst: Seq<u8>,
    iso_at: int,
)
    requires
        boot.len() == APPLOADER_OFF,
        fst.len() == 36,
        APPLOADER_OFF + apploader.len() <= dol_at,
        dol_at + main_dol.len() <= fst_at,
        fst_at + 36 <= iso_at,
    ensures
        ({
            let sys = boot + apploader + zeros((dol_at - APPLOADER_OFF - apploader.len()) as nat)
                + main_dol + zeros((fst_at - dol_at - main_dol.len()) as nat) + fst + zeros(
                (iso_at - fst_at - 36) as nat,
            );
            &&& sys.len() == iso_at
            &&& sys.take(APPLOADER_OFF as int) == boot
            &&& sys.subrange(APPLOADER_OFF as int, APPLOADER_OFF + apploader.len()) == apploader
            &&& sys.subrange(dol_at, dol_at + main_dol.len()) == main_dol
            &&& sys.subrange(fst_at, fst_at + 36) == fst
        }),
{
    let sys = boot + apploader + zeros((dol_at - APPLOADER_OFF - apploader.len()) as nat) + main_dol
        + zeros((fst_at - dol_at - main_dol.len()) as nat) + fst + zeros(
        (iso_at - fst_at - 36) as nat,
    );
    assert(sys.take(APPLOADER_OFF as int) =~= boot);
    assert(sys.subrange(APPLOADER_OFF as int, APPLOADER_OFF + apploader.len()) =~= apploader);
    assert(sys.subrange(dol_at, dol_at + main_dol.len()) =~= main_dol);
    assert(sys.subrange(fst_at, fst_at + 36) =~= fst);
}

/// Two game ids that differ in nothing but the region character give headers that differ in nothing
/// but that character and the region-info field.
pub proof fn region_character_touches_only_its_field(
    a: Seq<u8>,
    b: Seq<u8>,
    title: Seq<char>,
    i: int,
)
    requires
        a.len() == 6,
        b == a.update(3, b[3]),
        0 <= i < DISC_HEADER_LEN,
        i != 3,
        !(REGION_INFO_ABS <= i < REGION_INFO_ABS + 4),
    ensures
        disc_header_image(a, title)[i] == disc_header_image(b, title)[i],
{
    reveal_with_fuel(overlaid, 11);
}

} // verus!
