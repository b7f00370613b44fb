use wiivci_core::error::Error;
use wiivci_core::package::cert::{CertChain, EXPECTED_CERT_LEN};
use wiivci_core::package::content::assign::{GameGrouping, MAX_GAME_CONTENT_BYTES};
use wiivci_core::package::content::listing::{order_entries, Entry, OrderBy};
use wiivci_core::package::content::planned::{PlacedFile, PlannedContent, TYPE_HASHED, TYPE_NONHASHED};
use wiivci_core::package::content::{plan, PackagePlan, StagedTree};
use wiivci_core::package::fst::OFFSET_FACTOR;
use wiivci_core::package::plaintext::{assemble_content, ContentPlaintextReader, Piece};

const ROOT_CA_ISSUER: &[u8] = b"Root-CA00000003";

#[test]
fn rejects_wrong_size() {
    assert!(CertChain::from_bytes(vec![0u8; 100]).is_err());
}

#[test]
fn from_bytes_rejects_bad_signature_type() {
    let mut bytes = vec![0u8; EXPECTED_CERT_LEN];
    bytes[0..4].copy_from_slice(&0xDEAD_BEEFu32.to_be_bytes());
    bytes[100..115].copy_from_slice(ROOT_CA_ISSUER);
    let Err(err) = CertChain::from_bytes(bytes) else {
        panic!("expected an out-of-range signature type to be rejected");
    };
    assert!(matches!(err, Error::InvalidTitle(_)), "got {}", err.message());
}

#[test]
fn from_bytes_rejects_missing_root_ca_issuer() {
    let mut bytes = vec![0u8; EXPECTED_CERT_LEN];
    bytes[0..4].copy_from_slice(&0x0001_0001u32.to_be_bytes());
    let Err(err) = CertChain::from_bytes(bytes) else {
        panic!("expected a chain with no Root-CA00000003 issuer to be rejected");
    };
    assert!(matches!(err, Error::InvalidTitle(_)), "got {}", err.message());
}

#[test]
fn from_bytes_accepts_a_valid_chain() {
    let mut bytes = vec![0u8; EXPECTED_CERT_LEN];
    bytes[0..4].copy_from_slice(&0x0001_0001u32.to_be_bytes());
    bytes[200..200 + ROOT_CA_ISSUER.len()].copy_from_slice(ROOT_CA_ISSUER);
    let chain = CertChain::from_bytes(bytes.clone()).unwrap();
    assert_eq!(chain.as_bytes(), bytes.as_slice());
}

fn file(name: &str, size: u64) -> Entry {
    Entry::File { name: name.to_string(), size, regular: true }
}

fn dir(name: &str, entries: Vec<Entry>) -> Entry {
    Entry::Dir { name: name.to_string(), entries }
}

/// A content of a parsed FST.
#[derive(Debug, PartialEq)]
struct ParsedContent {
    offset_sectors: u32,
    size_sectors: u32,
    owner_title_id: u64,
    group_id: u32,
    flags: u16,
}

/// A node of a parsed FST.
#[derive(Debug)]
struct ParsedNode {
    name: String,
    type_flags: u8,
    flags: u16,
    cluster: u16,
    a: u32,
    b: u32,
}

fn be32(d: &[u8], at: usize) -> u32 {
    u32::from_be_bytes(d[at..at + 4].try_into().unwrap())
}

fn be16(d: &[u8], at: usize) -> u16 {
    u16::from_be_bytes(d[at..at + 2].try_into().unwrap())
}

/// Read an FST back from its bytes.
fn parse(d: &[u8]) -> (Vec<ParsedContent>, Vec<ParsedNode>) {
    assert_eq!(&d[0..4], b"FST\0");
    assert_eq!(be32(d, 4), OFFSET_FACTOR);
    let count = be32(d, 8) as usize;
    let contents = (0..count)
        .map(|i| {
            let at = 0x20 + 0x20 * i;
            ParsedContent {
                offset_sectors: be32(d, at),
                size_sectors: be32(d, at + 4),
                owner_title_id: u64::from_be_bytes(d[at + 8..at + 16].try_into().unwrap()),
                group_id: be32(d, at + 16),
                flags: be16(d, at + 20),
            }
        })
        .collect();
    let base = 0x20 + 0x20 * count;
    let total = be32(d, base + 8) as usize;
    let names = base + 0x10 * total;
    let nodes = (0..total)
        .map(|i| {
            let at = base + 0x10 * i;
            let name_at = names + (be32(d, at) & 0x00FF_FFFF) as usize;
            let end = name_at + d[name_at..].iter().position(|&b| b == 0).unwrap();
            ParsedNode {
                name: String::from_utf8(d[name_at..end].to_vec()).unwrap(),
                type_flags: d[at],
                flags: be16(d, at + 12),
                cluster: be16(d, at + 14),
                a: be32(d, at + 4),
                b: be32(d, at + 8),
            }
        })
        .collect();
    (contents, nodes)
}

fn node<'a>(nodes: &'a [ParsedNode], name: &str) -> &'a ParsedNode {
    nodes.iter().find(|n| n.name == name).unwrap()
}

fn small_tree() -> StagedTree {
    StagedTree {
        code: vec![file("app.xml", 6), file("cos.xml", 6), file("frisbiiU.rpx", 100)],
        content: vec![
            dir(
                "assets",
                vec![dir("shaders", vec![dir("cafe", vec![file("banner.gsh", 50)])])],
            ),
            file("hif_000000.nfs", 0x8000),
        ],
        meta: vec![file("meta.xml", 7), file("iconTex.tga", 200)],
    }
}

fn plan_of(t: &StagedTree) -> PackagePlan {
    assert!(t.fits());
    plan("/build", t, 0x00050002_534b4a45).unwrap()
}

#[test]
fn plans_a_small_tree() {
    let plan = plan_of(&small_tree());
    assert!(plan.contents.len() >= 6);
    assert!(!plan.fst.is_empty());

    let (contents, nodes) = parse(&plan.fst);
    let names: Vec<_> = nodes.iter().map(|n| n.name.as_str()).collect();
    assert!(names.contains(&"frisbiiU.rpx"));
    assert!(names.contains(&"hif_000000.nfs"));
    let hif = node(&nodes, "hif_000000.nfs");
    assert_eq!(hif.type_flags, 0x02);
    let game_ct = &contents[hif.cluster as usize];
    assert_eq!(game_ct.owner_title_id, 0x00050000_534b4a45);
    assert_eq!(game_ct.group_id, 0x4a45);
    let banner = node(&nodes, "banner.gsh");
    assert_eq!(banner.cluster, hif.cluster, "shaders live in the game content");
    assert_eq!(hif.cluster as usize, contents.len() - 1, "the game content is last");
    let meta = node(&nodes, "meta.xml");
    assert_ne!(meta.cluster, hif.cluster);
    assert_eq!(contents[meta.cluster as usize].owner_title_id, 0);
    let app = node(&nodes, "app.xml");
    let cos = node(&nodes, "cos.xml");
    let rpx = node(&nodes, "frisbiiU.rpx");
    assert_ne!(app.cluster, cos.cluster, "each code file gets its own content");
    assert_ne!(app.cluster, rpx.cluster);
}

#[test]
fn the_layout_of_a_small_tree_is_exact() {
    let plan = plan_of(&small_tree());
    let kinds: Vec<(u16, u16, bool)> =
        plan.contents.iter().map(|c| (c.index, c.content_type, c.is_game)).collect();
    assert_eq!(
        kinds,
        vec![
            (0, TYPE_NONHASHED, false),
            (1, TYPE_NONHASHED, false),
            (2, TYPE_NONHASHED, false),
            (3, TYPE_HASHED, false),
            (4, TYPE_HASHED, false),
            (5, TYPE_NONHASHED, false),
            (6, TYPE_HASHED, true),
        ]
    );
    assert_eq!(plan.contents[0].data_len, plan.fst.len() as u64);
    let game: Vec<(&str, u64, u64)> =
        plan.contents[6].files.iter().map(|f| (f.path.as_str(), f.offset, f.size)).collect();
    assert_eq!(
        game,
        vec![
            ("/build/content/hif_000000.nfs", 0, 0x8000),
            ("/build/content/assets/shaders/cafe/banner.gsh", 0x8000, 50),
        ]
    );
    let (_, nodes) = parse(&plan.fst);
    let order: Vec<&str> = nodes.iter().map(|n| n.name.as_str()).collect();
    assert_eq!(
        order,
        vec![
            "", "code", "app.xml", "cos.xml", "frisbiiU.rpx", "content", "hif_000000.nfs",
            "assets", "shaders", "cafe", "banner.gsh", "meta", "iconTex.tga", "meta.xml",
        ]
    );
    // Directories: parent, end, and the content of what follows.
    let content = &nodes[5];
    assert_eq!((content.type_flags, content.a, content.b, content.flags), (1, 0, 11, 0x0400));
    assert_eq!(content.cluster, 6);
    // Files: offset in units of the factor, and size.
    let banner = &nodes[10];
    assert_eq!((banner.a, banner.b, banner.flags), (0x8000 / 0x20, 50, 0x0400));
}

fn assert_cumulative_offsets(contents: &[ParsedContent]) {
    for i in 1..contents.len() {
        assert_eq!(
            contents[i].offset_sectors,
            contents[i - 1].offset_sectors + contents[i - 1].size_sectors,
            "content {i} must start where content {} ends",
            i - 1
        );
    }
}

#[test]
fn small_fst_occupies_one_sector_and_content_one_follows_it() {
    let plan = plan_of(&small_tree());
    assert!(plan.fst.len() < 0x8000, "this FST must be under one sector");
    let (contents, _) = parse(&plan.fst);
    assert_eq!(contents[0].size_sectors, 1);
    assert_eq!(contents[1].offset_sectors, 1);
    assert_cumulative_offsets(&contents);
}

#[test]
fn large_fst_spans_multiple_sectors_and_later_contents_follow_it() {
    let mut meta = vec![file("meta.xml", 7)];
    for i in 0..2200 {
        meta.push(file(&format!("f{i:05}.bin"), 1));
    }
    let tree = StagedTree {
        code: vec![file("app.xml", 6), file("cos.xml", 6)],
        content: vec![],
        meta,
    };
    let plan = plan_of(&tree);
    assert!(
        plan.fst.len() > 0x8000,
        "the FST must exceed one sector for this test to mean anything (got {})",
        plan.fst.len()
    );
    let (contents, _) = parse(&plan.fst);
    assert_eq!(
        contents[0].size_sectors as usize,
        plan.fst.len().div_ceil(0x8000),
        "content 0 must be sized from the FST's real length"
    );
    assert_eq!(
        contents[1].offset_sectors, contents[0].size_sectors,
        "content 1 must start after the whole FST, not overlap it"
    );
    assert_cumulative_offsets(&contents);
}

#[test]
fn game_grouping_packs_up_to_the_cap_in_one_content() {
    let mut game = GameGrouping::new();
    let mut contents: Vec<PlannedContent> = Vec::new();
    let a = MAX_GAME_CONTENT_BYTES - OFFSET_FACTOR as u64;
    let b = OFFSET_FACTOR as u64;
    let idx_a = game.content_for("a.bin", a, &mut contents).unwrap();
    let idx_b = game.content_for("b.bin", b, &mut contents).unwrap();
    assert_eq!(idx_a, idx_b, "sum equal to the cap must stay in one content");
    assert_eq!(contents.len(), 1);
}

#[test]
fn game_grouping_splits_at_the_file_boundary_once_over_the_cap() {
    let mut game = GameGrouping::new();
    let mut contents: Vec<PlannedContent> = Vec::new();
    let a = MAX_GAME_CONTENT_BYTES - OFFSET_FACTOR as u64;
    let b = 2 * OFFSET_FACTOR as u64;
    let idx_a = game.content_for("a.bin", a, &mut contents).unwrap();
    let idx_b = game.content_for("b.bin", b, &mut contents).unwrap();
    assert_ne!(
        idx_a, idx_b,
        "a file that would push the running total past the cap rolls over to a new content"
    );
    assert_eq!(contents.len(), 2);
}

#[test]
fn game_grouping_errors_when_a_single_file_exceeds_the_cap() {
    let mut game = GameGrouping::new();
    let mut contents: Vec<PlannedContent> = Vec::new();
    let path = "huge_hif_000000.nfs";
    let err = game
        .content_for(path, MAX_GAME_CONTENT_BYTES + 1, &mut contents)
        .unwrap_err();
    let msg = err.message();
    assert!(
        msg.contains("huge_hif_000000.nfs"),
        "error should name the offending file: {msg}"
    );
}

fn sorted_names(entries: Vec<Entry>, by: OrderBy) -> Vec<String> {
    order_entries(&entries, by).into_iter().map(|i| entries[i].name().clone()).collect()
}

#[test]
fn read_dir_sorted_orders_case_only_duplicates_deterministically() {
    let expected = vec!["Foo.txt".to_string(), "foo.txt".to_string()];
    assert_eq!(
        sorted_names(vec![file("Foo.txt", 1), file("foo.txt", 1)], OrderBy::Name),
        expected,
        "insertion order: Foo.txt then foo.txt"
    );
    assert_eq!(
        sorted_names(vec![file("foo.txt", 1), file("Foo.txt", 1)], OrderBy::Name),
        expected,
        "insertion order: foo.txt then Foo.txt"
    );
}

#[test]
fn code_files_with_case_only_duplicate_names_order_deterministically() {
    let tree = StagedTree {
        code: vec![file("foo.rpl", 10), file("Foo.rpl", 10)],
        content: vec![],
        meta: vec![],
    };
    let plan = plan_of(&tree);
    let (_, nodes) = parse(&plan.fst);
    let foo_upper = node(&nodes, "Foo.rpl");
    let foo_lower = node(&nodes, "foo.rpl");
    assert!(
        foo_upper.cluster < foo_lower.cluster,
        "Foo.rpl sorts before foo.rpl by exact-bytes tiebreak, so it gets the earlier content"
    );
}

#[test]
fn orders_put_game_data_or_executables_first() {
    let names = || vec![file("b.bin", 1), file("HIF_000001.NFS", 1), file("A.RPX", 1), file("hif_000000.nfs", 1)];
    assert_eq!(
        sorted_names(names(), OrderBy::HifFirst),
        vec!["hif_000000.nfs", "HIF_000001.NFS", "A.RPX", "b.bin"]
    );
    assert_eq!(
        sorted_names(names(), OrderBy::ExecutableFirst),
        vec!["A.RPX", "b.bin", "hif_000000.nfs", "HIF_000001.NFS"]
    );
    assert_eq!(
        sorted_names(vec![file("Ä", 1), file("z", 1), file("ä", 1)], OrderBy::Name),
        vec!["z", "Ä", "ä"]
    );
}

#[test]
fn plans_do_not_depend_on_the_listing_order() {
    let a = small_tree();
    let mut b = small_tree();
    b.code.reverse();
    b.content.reverse();
    b.meta.reverse();
    let (pa, pb) = (plan_of(&a), plan_of(&b));
    assert_eq!(pa.fst, pb.fst);
    for (x, y) in pa.contents.iter().zip(&pb.contents) {
        let files = |c: &PlannedContent| -> Vec<(String, u64)> {
            c.files.iter().map(|f| (f.path.clone(), f.offset)).collect()
        };
        assert_eq!(files(x), files(y));
    }
}

#[test]
fn plans_do_not_depend_on_the_root() {
    let mut other = small_tree();
    other.content.reverse();
    other.meta.reverse();
    let a = plan("/build", &small_tree(), 0x0005_0000_1234_5678).unwrap();
    let b = plan("/tmp/elsewhere/", &other, 0x0005_0000_1234_5678).unwrap();
    assert_eq!(a.fst, b.fst);
    assert_eq!(a.contents.len(), b.contents.len());
    for (x, y) in a.contents.iter().zip(&b.contents) {
        let files = |c: &PlannedContent, root: &str| -> Vec<(String, u64, u64)> {
            c.files
                .iter()
                .map(|f| (f.path.strip_prefix(root).unwrap().to_string(), f.offset, f.size))
                .collect()
        };
        assert_eq!(files(x, "/build/"), files(y, "/tmp/elsewhere/"));
        assert_eq!((x.index, x.content_type, x.data_len), (y.index, y.content_type, y.data_len));
    }
}

#[test]
fn game_files_are_packed_in_sequence() {
    let cap = MAX_GAME_CONTENT_BYTES;
    let mut game = GameGrouping::new();
    let mut contents: Vec<PlannedContent> = Vec::new();
    let mut got = Vec::new();
    for size in [cap + 1, cap / 2, cap / 2, 1, cap + 0x20, cap, 0, 0x20] {
        got.push(game.content_for("f", size, &mut contents).ok());
    }
    assert_eq!(
        got,
        vec![None, Some(0), Some(0), Some(1), None, Some(2), Some(2), Some(3)]
    );
    assert_eq!(contents.len(), 4);
    assert!(contents.iter().enumerate().all(|(i, c)| c.index as usize == i && c.is_game));
}

#[test]
fn the_first_disc_file_starts_the_game_content() {
    let tree = StagedTree {
        code: vec![file("app.xml", 3)],
        content: vec![
            file("a.gsh", 1),
            file("HIF_000002.nfs", 7),
            file("hif_000001.nfs", 7),
            dir("assets", vec![file("b", 1)]),
            file("hif_000000.nfs", 7),
        ],
        meta: vec![],
    };
    let plan = plan_of(&tree);
    let game = plan.contents.iter().find(|c| c.is_game).unwrap();
    let paths: Vec<&str> = game.files.iter().map(|f| f.path.as_str()).collect();
    assert_eq!(
        paths[..3],
        [
            "/build/content/hif_000000.nfs",
            "/build/content/hif_000001.nfs",
            "/build/content/HIF_000002.nfs"
        ]
    );
    assert_eq!(game.files[0].offset, 0);
}

#[test]
fn large_game_data_is_split_below_the_cap() {
    let half = MAX_GAME_CONTENT_BYTES / 2 + 1;
    let tree = StagedTree {
        code: vec![],
        content: vec![file("hif_000000.nfs", half), file("hif_000001.nfs", half), file("x.gsh", 5)],
        meta: vec![],
    };
    let plan = plan_of(&tree);
    let games: Vec<&PlannedContent> = plan.contents.iter().filter(|c| c.is_game).collect();
    assert_eq!(games.len(), 2);
    assert_eq!(games[0].files[0].path, "/build/content/hif_000000.nfs");
    assert_eq!(games[0].files[0].offset, 0);
    assert!(games.iter().all(|c| c.data_len <= MAX_GAME_CONTENT_BYTES));
    assert_eq!(games[1].files.len(), 2);
}

#[test]
fn a_game_file_beyond_the_cap_fails_the_plan() {
    let tree = StagedTree {
        code: vec![],
        content: vec![file("hif_000000.nfs", MAX_GAME_CONTENT_BYTES + 1)],
        meta: vec![],
    };
    assert!(tree.fits());
    let Err(err) = plan("/build", &tree, 1) else {
        panic!("a file beyond the cap must be refused");
    };
    assert_eq!(
        err.message(),
        "format limit exceeded: /build/content/hif_000000.nfs is 1879048193 bytes, which alone exceeds the 1879048192-byte game content cap; a content at/above 2 GiB is known to hang the Wii U installer, so this file cannot be packaged as-is"
    );
}

#[test]
fn nested_code_files_have_no_content() {
    let tree = StagedTree {
        code: vec![dir("sub", vec![file("x.rpx", 1)])],
        content: vec![],
        meta: vec![],
    };
    let Err(err) = plan("/build", &tree, 1) else {
        panic!("a nested code file has no content");
    };
    assert_eq!(
        err.message(),
        "unsupported disc: /build/code/sub/x.rpx was not assigned to a content"
    );
}

#[test]
fn too_large_a_tree_does_not_fit() {
    let mut tree = small_tree();
    tree.content.push(file("big", u64::MAX));
    assert!(!tree.fits());
    assert!(small_tree().fits());
}

/// Read a content to its end in pieces of at most `want` bytes.
fn stream(c: &PlannedContent, data: &[Vec<u8>], want: usize) -> Vec<u8> {
    let mut reader = ContentPlaintextReader::new(c);
    let mut out = Vec::new();
    loop {
        match reader.read(want) {
            Piece::End => return out,
            Piece::Zeros(n) => out.extend(std::iter::repeat(0u8).take(n)),
            Piece::File { index, at, len } => {
                out.extend_from_slice(&data[index][at as usize..at as usize + len]);
            }
        }
    }
}

fn placed(path: &str, offset: u64, size: u64) -> PlacedFile {
    PlacedFile { path: path.to_string(), offset, size }
}

#[test]
fn content_plaintext_reader_matches_assemble_content() {
    let data = vec![vec![0xAA; 100], vec![0xBB; 0x40], vec![0xCC; 7]];
    let c = PlannedContent {
        index: 5,
        content_type: TYPE_HASHED,
        files: vec![
            placed("a.bin", 0x20, 100),
            placed("b.bin", 0x100, 0x40),
            placed("c.bin", 0x200, 7),
        ],
        data_len: 0x240,
        is_game: true,
    };
    let expected = assemble_content(&c, &[], &data).unwrap();
    assert_eq!(expected.len(), 0x240);
    assert_eq!(&expected[0x1F..0x21], &[0x00, 0xAA]);
    assert_eq!(
        stream(&c, &data, 8192),
        expected,
        "streamed plaintext must match assemble_content"
    );
    assert_eq!(stream(&c, &data, 3), expected, "small-buffer reads must also match");
}

#[test]
fn streaming_takes_files_by_their_offsets() {
    let data = vec![vec![1; 4], vec![], vec![2; 4]];
    let c = PlannedContent {
        index: 1,
        content_type: TYPE_HASHED,
        files: vec![placed("late", 0x20, 4), placed("empty", 0x20, 0), placed("early", 0, 4)],
        data_len: 0x24,
        is_game: false,
    };
    let expected = assemble_content(&c, &[], &data).unwrap();
    assert_eq!(stream(&c, &data, 5), expected);
    assert_eq!(&expected[..4], &[2; 4]);
    assert_eq!(&expected[0x20..], &[1; 4]);
    assert_eq!(ContentPlaintextReader::new(&c).read(0), Piece::End);
}

#[test]
fn reads_of_any_size_make_up_the_content() {
    let data = vec![vec![0xAA; 100], vec![0xBB; 0x40]];
    let c = PlannedContent {
        index: 5,
        content_type: TYPE_HASHED,
        files: vec![placed("a.bin", 0x20, 100), placed("b.bin", 0x100, 0x40)],
        data_len: 0x150,
        is_game: true,
    };
    let expected = assemble_content(&c, &[], &data).unwrap();
    let mut reader = ContentPlaintextReader::new(&c);
    let mut out = Vec::new();
    for want in [1, 0, 7, 200, 2, 0, 31, 500, 3, 500, 500, 500, 500] {
        match reader.read(want) {
            Piece::End => {}
            Piece::Zeros(n) => out.extend(std::iter::repeat(0u8).take(n)),
            Piece::File { index, at, len } => {
                out.extend_from_slice(&data[index][at as usize..at as usize + len]);
            }
        }
        assert_eq!(out, expected[..out.len()]);
    }
    assert_eq!(out, expected);
    assert_eq!(reader.read(1), Piece::End);
}

#[test]
fn only_contents_of_content_files_are_game_data() {
    let plan = plan_of(&small_tree());
    assert!(plan.contents[0].files.is_empty());
    for c in &plan.contents {
        for f in &c.files {
            assert_eq!(c.is_game, f.path.starts_with("/build/content/"), "{}", f.path);
        }
        assert!(!c.is_game || !c.files.is_empty());
    }
    assert!(plan.contents.iter().any(|c| c.is_game));
}

#[test]
fn assemble_content_rejects_a_file_that_changed_size_after_planning() {
    let planned = PlannedContent {
        index: 1,
        content_type: TYPE_HASHED,
        files: vec![placed("/build/app.xml", 0, 100)],
        data_len: 100,
        is_game: false,
    };
    assert_eq!(
        assemble_content(&planned, &[], &vec![vec![0xEE; 100]]).unwrap(),
        vec![0xEE; 100]
    );
    for (label, actual) in [("grew", 128usize), ("shrank", 64)] {
        let err = assemble_content(&planned, &[], &vec![vec![0xEE; actual]]).unwrap_err();
        let msg = err.message();
        assert!(
            matches!(err, Error::FormatLimit(_)),
            "a file that {label} should be a format-limit error, got {msg}"
        );
        assert!(msg.contains("app.xml"), "error should name the file: {msg}");
        assert!(
            msg.contains("100") && msg.contains(&actual.to_string()),
            "error should give both sizes: {msg}"
        );
    }
}

#[test]
fn content_zero_is_the_fst() {
    let c = PlannedContent {
        index: 0,
        content_type: TYPE_NONHASHED,
        files: vec![],
        data_len: 3,
        is_game: false,
    };
    assert_eq!(assemble_content(&c, &[7, 8, 9], &vec![]).unwrap(), vec![7, 8, 9]);
}
