use wiivci_core::cli::{
    base_download, check_work_dir, dol_source, gc_options, parse_hex, parse_language,
    parse_memcard_size, parse_ranged, parse_region, parse_title_id, parse_video, DolSource, GcFlags,
};
use wiivci_core::nincfg::{Language, VideoMode};
use wiivci_core::pipeline::Region;

/// The settings, with those given set.
fn parse(extra: &[&str]) -> Option<GcFlags> {
    let mut flags = GcFlags::new();
    for pair in extra.chunks(2) {
        if !flags.set(pair[0], pair[1]) {
            return None;
        }
    }
    Some(flags)
}

#[test]
fn nincfg_flag_defaults_match_the_previous_hardcoded_values() {
    let cli = parse(&[]).unwrap();
    assert!(matches!(cli.video, VideoMode::Auto));
    assert_eq!(cli.memcard_blocks, 2, "251 blocks ⇒ exponent 2");
    assert_eq!(cli.max_pads, 4);
    assert_eq!(cli.gamepad_slot, 0);
    assert!(!cli.no_memcard);
    assert!(!cli.widescreen);
}

#[test]
fn nincfg_flags_parse_and_map() {
    let cli = parse(&[
        "--gc-video",
        "progressive",
        "--gc-memcard-blocks",
        "1019",
        "--gc-max-pads",
        "2",
        "--gc-gamepad-slot",
        "1",
    ])
    .unwrap();
    assert!(matches!(cli.video, VideoMode::ForceProgressive));
    assert_eq!(cli.memcard_blocks, 4, "1019 blocks ⇒ exponent 4");
    assert_eq!(cli.max_pads, 2);
    assert_eq!(cli.gamepad_slot, 1);
}

#[test]
fn memcard_size_accepts_only_nintendont_sizes() {
    for (blocks, exp) in [("59", 0u8), ("123", 1), ("251", 2), ("507", 3), ("1019", 4)] {
        assert_eq!(parse_memcard_size(blocks).unwrap(), exp);
    }
    assert!(parse_memcard_size("512").is_err());
    assert!(parse_memcard_size("0").is_err());
    assert!(parse(&["--gc-memcard-blocks", "512"]).is_none());
}

#[test]
fn out_of_range_pads_and_slot_are_rejected() {
    for bad in [["--gc-max-pads", "5"], ["--gc-gamepad-slot", "4"]] {
        assert!(parse(&bad).is_none(), "{bad:?} must be rejected");
    }
}

#[test]
fn memcard_blocks_follow_the_exponent() {
    for x in 0u8..=4 {
        let blocks = (1u32 << (x + 6)) - 5;
        assert_eq!(parse_memcard_size(&blocks.to_string()).unwrap(), x);
    }
    assert_eq!(
        parse_memcard_size("60").unwrap_err(),
        "memory-card size must be one of 59, 123, 251, 507 or 1019 blocks"
    );
}

#[test]
fn a_rejected_setting_changes_nothing() {
    let mut flags = GcFlags::new();
    assert!(!flags.set("--gc-video", "PAL50"));
    assert!(!flags.set("--gc-language", "klingon"));
    assert!(!flags.set("--unknown", "auto"));
    assert!(matches!(flags.video, VideoMode::Auto));
    assert!(flags.set("--gc-language", "dutch"));
    assert!(matches!(flags.language, Language::Dutch));
}

#[test]
fn names_map_to_modes_languages_and_regions() {
    let modes = [
        ("auto", VideoMode::Auto),
        ("ntsc", VideoMode::ForceNtsc),
        ("pal50", VideoMode::ForcePal50),
        ("pal60", VideoMode::ForcePal60),
        ("mpal", VideoMode::ForceMpal),
        ("progressive", VideoMode::ForceProgressive),
        ("none", VideoMode::Off),
    ];
    for (name, mode) in modes {
        assert_eq!(parse_video(name), Some(mode));
    }
    assert_eq!(parse_video(""), None);
    let languages = [
        ("auto", Language::Auto),
        ("english", Language::English),
        ("german", Language::German),
        ("french", Language::French),
        ("spanish", Language::Spanish),
        ("italian", Language::Italian),
        ("dutch", Language::Dutch),
    ];
    for (name, language) in languages {
        assert_eq!(parse_language(name), Some(language));
    }
    assert_eq!(parse_language("English"), None);
    assert_eq!(parse_region("jp"), Some(Region::Japan));
    assert_eq!(parse_region("us"), Some(Region::Usa));
    assert_eq!(parse_region("eu"), Some(Region::Europe));
    assert_eq!(parse_region("kr"), None);
}

#[test]
fn ranged_numbers_accept_signs_and_leading_zeros() {
    assert_eq!(parse_ranged("+3", 4), Ok(3));
    assert_eq!(parse_ranged("-0", 4), Ok(0));
    assert_eq!(parse_ranged("000000000000000000000004", 4), Ok(4));
    assert_eq!(parse_ranged("-1", 4).unwrap_err(), "-1 is not in 0..=4");
    assert!(parse_ranged("99999999999999999999999999", 4).is_err());
    assert!(parse_ranged("", 4).is_err());
    assert!(parse_ranged("+", 4).is_err());
    assert!(parse_ranged("2x", 4).is_err());
}

#[test]
fn hex_is_parsed_with_surrounding_white_space() {
    assert_eq!(parse_hex(" 00ffA5\n", 3).unwrap(), vec![0x00, 0xFF, 0xA5]);
    assert_eq!(
        parse_hex("00ff", 3).unwrap_err(),
        "expected 6 hex characters, got \"00ff\""
    );
    assert_eq!(
        parse_hex("0g", 1).unwrap_err(),
        "expected 2 hex characters, got \"0g\""
    );
    assert!(parse_hex("é", 1).is_err());
    assert_eq!(parse_hex("", 0).unwrap(), Vec::<u8>::new());
}

#[test]
fn hex_text_reads_back() {
    let bytes: Vec<u8> = (0..=255).collect();
    let text = wiivci_core::assets::nintendont::hex(&bytes);
    assert_eq!(parse_hex(&text, 256).unwrap(), bytes);
}

#[test]
fn title_ids_are_parsed() {
    assert_eq!(parse_title_id("00050000101B0700"), Some(0x0005_0000_101B_0700));
    assert_eq!(parse_title_id(" +ff "), Some(255));
    assert_eq!(parse_title_id("ffffffffffffffff"), Some(u64::MAX));
    assert_eq!(parse_title_id("10000000000000000"), None);
    assert_eq!(parse_title_id("00000000000000000000001"), Some(1));
    assert_eq!(parse_title_id(""), None);
    assert_eq!(parse_title_id("+"), None);
    assert_eq!(parse_title_id("-1"), None);
}

#[test]
fn base_downloads_need_an_id_and_a_key() {
    let key = Some("000102030405060708090a0b0c0d0e0f".to_string());
    let (id, k) = base_download("00050000101B0700", &key).unwrap();
    assert_eq!(id, 0x0005_0000_101B_0700);
    assert_eq!(k, [0, 1, 2, 3, 4, 5, 6, 7, 8, 9, 10, 11, 12, 13, 14, 15]);
    assert_eq!(
        base_download("xyz", &None).unwrap_err(),
        "invalid --base-title-id \"xyz\""
    );
    assert_eq!(
        base_download("1", &None).unwrap_err(),
        "--base-title-key is required with --base-title-id"
    );
    assert_eq!(
        base_download("1", &Some(" 12 ".to_string())).unwrap_err(),
        "invalid --base-title-key: expected 32 hex characters, got \"12\""
    );
}

#[test]
fn the_boot_file_is_downloaded_only_online() {
    let given = Some("boot.dol".to_string());
    assert!(matches!(dol_source(&given, true), Ok(DolSource::File(p)) if p == "boot.dol"));
    assert!(matches!(dol_source(&None, false), Ok(DolSource::Download)));
    assert_eq!(
        dol_source(&None, true).unwrap_err(),
        "--nintendont <boot.dol> is required with --offline (cannot download Nintendont)"
    );
}

#[test]
fn options_carry_the_settings() {
    let mut flags = GcFlags::new();
    flags.no_memcard = true;
    flags.widescreen = true;
    flags.cheats = Some("/cheats.gct".to_string());
    let opts = gc_options(flags, vec![1], vec![2]);
    assert_eq!(opts.nintendont_dol, vec![1]);
    assert_eq!(opts.apploader, vec![2]);
    assert!(!opts.memcard_emu);
    assert!(opts.widescreen);
    assert_eq!(opts.cheat_path.as_deref(), Some("/cheats.gct"));
    assert_eq!(opts.disc_id, None);
}

#[test]
fn accepts_existing_empty_dir() {
    check_work_dir("/work", true).unwrap();
}

#[test]
fn rejects_existing_nonempty_dir() {
    let err = check_work_dir("/work", false).unwrap_err();
    assert!(err.contains("not empty"));
    assert!(err.starts_with("--work-dir /work already exists"));
}
