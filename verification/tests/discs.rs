use sha1::{Digest, Sha1};
use wiivci_core::apploader::{
    cert_chain_range, parse_header, partition_info_offset, partition_offset, HEADER_LEN,
    PARTITION_TABLE_OFF,
};
use wiivci_core::consts::{CLUSTER_DATA, SECTORS_PER_GROUP};
use wiivci_core::error::Error;
use wiivci_core::hash_tree::{recompute_group, MAX_H3_GROUPS};
use wiivci_core::wii_author::images::{
    build_disc_header, build_wii_ticket, build_wii_tmd, knows_region, u32_field, wii_disc_title_id,
    REF_TICKET_ID, REF_TMD_CONTENT_SIZE, REGION_INFO_ABS,
};
use wiivci_core::wii_author::{
    author_gc_disc, lay_out_gc_disc, GcDiscInputs, DATA_ABS, MAX_ISO_SIZE, MAX_LOGICAL_SIZE,
};

const REF_TITLE_KEY: [u8; 16] = [
    0xFB, 0x1A, 0x55, 0xB4, 0xA6, 0xB6, 0x5C, 0x46, 0x8B, 0x91, 0xEF, 0x66, 0x29, 0xD7, 0x6E, 0x8F,
];

fn fake_apploader() -> Vec<u8> {
    let (size, trailer) = (0x400usize, 0x100usize);
    let mut img = vec![0u8; HEADER_LEN + size + trailer];
    img[..10].copy_from_slice(b"2026/08/27");
    img[0x10..0x14].copy_from_slice(&0x8130_0000u32.to_be_bytes());
    img[0x14..0x18].copy_from_slice(&(size as u32).to_be_bytes());
    img[0x18..0x1C].copy_from_slice(&(trailer as u32).to_be_bytes());
    for (i, b) in img[HEADER_LEN..].iter_mut().enumerate() {
        *b = (i.wrapping_mul(31) ^ 0x5C) as u8;
    }
    img
}

#[test]
fn parses_a_valid_header() {
    let img = fake_apploader();
    let (total, date, entry) = parse_header(img[..HEADER_LEN].try_into().unwrap()).unwrap();
    assert_eq!(total, img.len());
    assert_eq!(date, "2026/08/27");
    assert_eq!(entry, 0x8130_0000);
}

#[test]
fn rejects_implausible_headers() {
    assert!(parse_header(&[0u8; HEADER_LEN]).is_err());
    let mut h = [0u8; HEADER_LEN];
    h[0x10..0x14].copy_from_slice(&0x8130_0000u32.to_be_bytes());
    h[0x14..0x18].copy_from_slice(&u32::MAX.to_be_bytes());
    assert!(parse_header(&h).is_err());
}

/// A disc header whose game id carries `region` as its fourth byte.
fn prefix_for(region: u8) -> Vec<u8> {
    let mut game_id = *b"GM2E8P";
    game_id[3] = region;
    build_disc_header(&game_id, "GC Test")
}

#[test]
fn region_info_follows_the_game_id_region_char() {
    let r = REGION_INFO_ABS as usize;
    let j = prefix_for(b'J');
    assert_eq!(&j[r..r + 4], &[0, 0, 0, 0], "NTSC-J region field must be 0");

    for (region, want) in [
        (b'W', 0u32),
        (b'E', 1),
        (b'N', 1),
        (b'P', 2),
        (b'D', 2),
        (b'S', 2),
        (b'Z', 2),
        (b'K', 4),
        (b'Q', 4),
        (b'T', 4),
        (b'?', 0),
    ] {
        let p = prefix_for(region);
        assert_eq!(
            u32::from_be_bytes(p[r..r + 4].try_into().unwrap()),
            want,
            "region '{}' must map to {want}",
            region as char
        );
        let mut normalized = p.clone();
        normalized[3] = b'J';
        normalized[r..r + 4].copy_from_slice(&j[r..r + 4]);
        assert_eq!(
            normalized, j,
            "region '{}' changed prefix bytes outside the region-info field",
            region as char
        );
    }
}

#[test]
fn header_and_ticket_tmd_match_the_reference_carrier_disc() {
    let p = build_disc_header(b"CEMU69", "PunEmu 1.1");
    assert_eq!(&p[0x4FFFC..0x50000], &0xC3F8_1A8Eu32.to_be_bytes());
    assert_eq!(
        &p[0x40000..0x40010],
        &[0, 0, 0, 1, 0, 1, 0, 8, 0, 0, 0, 0, 0, 0, 0, 8]
    );
    assert_eq!(
        &p[0x48000..0x48010],
        &[0, 0, 0, 0, 0, 0, 0, 0, 0, 0, 0, 0, 0, 0, 0, 9]
    );
    assert_eq!(
        &p[0x4E000..0x4E004],
        &[0, 0, 0, 2],
        "'U' region char ⇒ PAL, as the reference"
    );

    let title_id = wii_disc_title_id(b"CEMU69");
    assert_eq!(title_id, 0x0001_0000_4345_4D55);
    let t = build_wii_ticket(title_id);
    assert_eq!(&t[0x1BF..0x1CF], &REF_TITLE_KEY);
    assert_eq!(&t[0x1D0..0x1D8], &REF_TICKET_ID.to_be_bytes());
    assert_eq!(&t[0x1E4..0x1E6], &[0xFF, 0xFF]);
    assert_eq!(t[0x24C], 0x02);
    let m = build_wii_tmd(title_id, &[0xAB; 20]);
    assert_eq!(&m[0x184..0x18C], &0x0000_0001_0000_0023u64.to_be_bytes());
    assert_eq!(&m[0x198..0x19C], b"01\x03\x00");
    assert_eq!(&m[0x1EC..0x1F4], &REF_TMD_CONTENT_SIZE.to_be_bytes());
}

#[test]
fn oversized_game_image_errors_instead_of_truncating() {
    let result = author_gc_disc(
        &[],
        MAX_ISO_SIZE + 1,
        &GcDiscInputs {
            game_id: *b"GM2E8P",
            disc_title: "GC Test",
            main_dol: &[0u8; 32],
            apploader: &[],
            cert_chain: &[],
        },
    );
    let Err(err) = result else {
        panic!("an oversized game image must be rejected");
    };
    assert!(
        matches!(err, Error::FormatLimit(_)),
        "expected a format-limit error, got {}",
        err.message()
    );
}

#[test]
fn accepted_image_sizes_fit_the_h3_table() {
    assert!(MAX_ISO_SIZE < MAX_LOGICAL_SIZE);
    let clusters = MAX_LOGICAL_SIZE.div_ceil(CLUSTER_DATA as u64) as usize;
    assert_eq!(clusters.div_ceil(SECTORS_PER_GROUP), MAX_H3_GROUPS);
}

#[test]
fn large_values_do_not_fit_the_disc_fields() {
    assert_eq!(u32_field("x", u32::MAX as u64).unwrap(), u32::MAX);
    let err = u32_field("game size", 0x1_0000_0000).unwrap_err();
    assert!(matches!(err, Error::FormatLimit(_)));
    assert!(err.message().contains("game size"));
}

fn inputs<'a>(main_dol: &'a [u8], apploader: &'a [u8], cert_chain: &'a [u8]) -> GcDiscInputs<'a> {
    GcDiscInputs { game_id: *b"GM2E8P", disc_title: "GC Test", main_dol, apploader, cert_chain }
}

fn fake_iso() -> Vec<u8> {
    (0..200_000u32).map(|i| (i.wrapping_mul(2654435761) >> 13) as u8).collect()
}

fn be32(d: &[u8], at: usize) -> u32 {
    u32::from_be_bytes(d[at..at + 4].try_into().unwrap())
}

/// The logical data of a disc: its clusters without their hash blocks.
fn logical(clusters: &[u8]) -> Vec<u8> {
    clusters.chunks(0x8000).flat_map(|c| c[0x400..].to_vec()).collect()
}

#[test]
fn an_authored_disc_reads_back() {
    let iso = fake_iso();
    let main_dol: Vec<u8> = (0..4096u32).map(|i| (i ^ 0xA5) as u8).collect();
    let apploader = fake_apploader();
    let chain = vec![0xC5; 0xA00];
    let ins = inputs(&main_dol, &apploader, &chain);
    let (disc, clusters) = author_gc_disc(&iso, iso.len() as u64, &ins).unwrap();
    assert_eq!(disc.disc_size(), DATA_ABS + clusters.len() as u64);
    assert_eq!(disc.plan.partitions.len(), 1);
    let part = &disc.plan.partitions[0];
    assert_eq!(
        (part.data_end_sector - part.data_start_sector) as usize,
        clusters.len() / 0x8000
    );
    assert!(part.header_patches.is_empty() && part.edits.is_empty());
    assert!(part.stored_data_groups.is_empty());
    assert!(disc.plan.disc_patches.is_empty() && disc.plan.applied.is_empty());

    // The boot header leads to main.dol and the FST, and the FST to game.iso.
    let data = logical(&clusters);
    assert_eq!(&data[..6], b"GM2E8P");
    let dol_at = (be32(&data, 0x420) as usize) << 2;
    assert_eq!(&data[dol_at..dol_at + main_dol.len()], main_dol.as_slice());
    let fst_at = (be32(&data, 0x424) as usize) << 2;
    assert_eq!(be32(&data, fst_at + 8), 2, "root FST entry count");
    let iso_at = (be32(&data, fst_at + 0x10) as usize) << 2;
    assert_eq!(be32(&data, fst_at + 0x14) as usize, iso.len());
    assert_eq!(&data[iso_at..iso_at + iso.len()], iso.as_slice());
    assert_eq!(&data[0x2440..0x2440 + apploader.len()], apploader.as_slice());

    // The TMD carries the hash of the H3 table, which holds the hash of the H2 table.
    let h3 = &disc.partition_header[0x8000..0x8000 + 0x1_8000];
    let content_hash = disc.plan.rvlt_content_hash.unwrap();
    let digest: [u8; 20] = Sha1::digest(h3).into();
    assert_eq!(content_hash, digest);
    assert_eq!(&disc.rvlt_tmd[0x1F4..0x208], &content_hash);
    let h2_hash: [u8; 20] = Sha1::digest(&clusters[0x340..0x3E0]).into();
    assert_eq!(&h3[..20], &h2_hash);
    let h0_hash: [u8; 20] = Sha1::digest(&clusters[0x400..0x800]).into();
    assert_eq!(&clusters[..20], &h0_hash);

    // The headers lead to the certificate chain.
    let table = &disc.disc_header[PARTITION_TABLE_OFF as usize..PARTITION_TABLE_OFF as usize + 8];
    let info_at = partition_info_offset(table);
    let part_at = partition_offset(&disc.disc_header[info_at as usize..info_at as usize + 8]);
    assert_eq!(part_at, 0xF80_0000);
    let (at, len) = cert_chain_range(part_at, &disc.partition_header).unwrap();
    let from = (at - part_at) as usize;
    assert_eq!(&disc.partition_header[from..from + len], chain.as_slice());
}

#[test]
fn group_by_group_is_the_same_as_all_at_once() {
    let iso = fake_iso();
    let main_dol = vec![7u8; 3_000_000];
    let ins = inputs(&main_dol, &[], &[]);
    let (_, clusters) = author_gc_disc(&iso, iso.len() as u64, &ins).unwrap();
    let layout = lay_out_gc_disc(iso.len() as u64, &ins).unwrap();
    let groups = layout.total_clusters.div_ceil(SECTORS_PER_GROUP);
    let mut all = Vec::new();
    for g in 0..groups {
        let (from, len) = layout.iso_range(g);
        let encoded = layout.encode_group(g, &iso[from as usize..from as usize + len]);
        all.extend_from_slice(&encoded.clusters);
    }
    assert!(groups > 1);
    assert_eq!(all, clusters);
}

#[test]
fn a_short_game_image_is_an_error() {
    let err = author_gc_disc(&[1, 2, 3], 4, &inputs(&[0; 32], &[], &[])).unwrap_err();
    assert_eq!(
        err.message(),
        "I/O error at <game.iso>: failed to fill whole buffer"
    );
}

#[test]
fn oversized_inputs_are_refused() {
    let chain = vec![0; 0x8000];
    let err = author_gc_disc(&[], 0, &inputs(&[0; 32], &[], &chain)).unwrap_err();
    assert!(matches!(err, Error::FormatLimit(_)), "{}", err.message());
}

#[test]
fn stripping_the_hashes_gives_the_data_back() {
    let group: Vec<u8> = (0..0x1F_0000u32).map(|i| (i / 7) as u8).collect();
    let encoded = recompute_group(&group, 3);
    assert_eq!(encoded.clusters.len(), 3 * 0x8000);
    assert_eq!(logical(&encoded.clusters), &group[..3 * CLUSTER_DATA]);
}

#[test]
fn every_authored_sector_validates() {
    let iso = fake_iso();
    let main_dol = vec![9u8; 2_500_000];
    let ins = inputs(&main_dol, &[], &[]);
    let (disc, clusters) = author_gc_disc(&iso, iso.len() as u64, &ins).unwrap();
    assert!(clusters.len() > SECTORS_PER_GROUP * 0x8000);
    let h3 = &disc.partition_header[0x8000..0x8000 + 0x1_8000];
    for (ci, sector) in clusters.chunks(0x8000).enumerate() {
        let (group, k) = (ci / SECTORS_PER_GROUP, ci % SECTORS_PER_GROUP);
        for (j, block) in sector[0x400..].chunks(0x400).enumerate() {
            let want: [u8; 20] = Sha1::digest(block).into();
            assert_eq!(&sector[j * 20..j * 20 + 20], &want, "H0 {j} of sector {ci}");
        }
        let h1: [u8; 20] = Sha1::digest(&sector[..0x26C]).into();
        let at = 0x280 + k % 8 * 20;
        assert_eq!(&sector[at..at + 20], &h1, "H1 of sector {ci}");
        let h2: [u8; 20] = Sha1::digest(&sector[0x280..0x320]).into();
        let at = 0x340 + k / 8 * 20;
        assert_eq!(&sector[at..at + 20], &h2, "H2 of sector {ci}");
        let top: [u8; 20] = Sha1::digest(&sector[0x340..0x3E0]).into();
        assert_eq!(&h3[group * 20..group * 20 + 20], &top, "H3 of sector {ci}");
    }
}

#[test]
fn known_regions_are_those_with_a_meaning() {
    let known: Vec<u8> = (0..=255).filter(|&c| knows_region(c)).collect();
    assert_eq!(known, b"DEFIJKLMNPQRSTUVWXYZ".to_vec());
}
