use image::{ImageBuffer, ImageFormat, Rgba};
use std::io::Cursor;
use wiivci_core::assets::images::BootTexture;
use wiivci_core::consts::{TMD_CONTENT0_HASH, WII_SIG_END, WII_SIG_START};
use wiivci_core::error::Error;
use wiivci_core::nincfg::{Language, VideoMode};
use wiivci_core::package::builder::PackageStats;
use wiivci_core::package::cert::CertChain;
use wiivci_core::pipeline::{
    base_disc_extras, carrier_inputs, carrier_title, drc_source, fakesign, firmware_patches,
    meta_options, nincfg_options, nincfg_path, package_params, platform, resolve_textures, resolve_title,
    rvlt_files, stages, summary, texture_source, update_rvlt_tmd, wants_apploader, wants_lookup,
    BaseDiscExtras, BaseDiscReads, Config, GameCubeOptions, Platform, Region, Stage, TextureRun,
    TextureSource, VideoPatches,
};

#[test]
fn drc_use_is_gamepad_controller_on_gamecube_only() {
    assert_eq!(Platform::GameCube.drc_use(true), 0x0001_0001);
    assert_eq!(Platform::GameCube.drc_use(false), 1);
    assert_eq!(Platform::Wii.drc_use(true), 1);
    assert_eq!(Platform::Wii.drc_use(false), 0);
}

#[test]
fn art_key_matches_the_repository_layout() {
    assert_eq!(Platform::Wii.art_key(), "wii");
    assert_eq!(Platform::GameCube.art_key(), "gcn");
}

#[test]
fn fakesign_errors_on_a_short_blob_and_zeroes_the_signature_otherwise() {
    let mut short = vec![0xAAu8; WII_SIG_END - 1];
    let err = fakesign(&mut short).unwrap_err();
    let msg = err.message();
    assert!(
        matches!(err, Error::UnsupportedDisc(_)),
        "expected an unsupported-disc error, got {msg}"
    );
    assert!(
        msg.contains(&(WII_SIG_END - 1).to_string()) && msg.contains(&WII_SIG_END.to_string()),
        "error should give the actual and the required length: {msg}"
    );

    let mut exact = vec![0xAAu8; WII_SIG_END];
    fakesign(&mut exact).unwrap();
    assert_eq!(&exact[..WII_SIG_START], &[0xAA; 4]);
    assert!(exact[WII_SIG_START..WII_SIG_END].iter().all(|&b| b == 0));
}

#[test]
fn update_rvlt_tmd_errors_on_a_short_tmd_and_writes_both_fields_otherwise() {
    let hash = [0x5Au8; 20];
    let min = TMD_CONTENT0_HASH + 20;

    let mut short = vec![0xAAu8; min - 1];
    let err = update_rvlt_tmd(&mut short, &hash).unwrap_err();
    let msg = err.message();
    assert!(
        matches!(err, Error::UnsupportedDisc(_)),
        "expected an unsupported-disc error, got {msg}"
    );
    assert!(
        msg.contains(&(min - 1).to_string()) && msg.contains(&min.to_string()),
        "error should give the actual and the required length: {msg}"
    );
    assert_eq!(short, vec![0xAAu8; min - 1], "a rejected TMD is untouched");

    let mut exact = vec![0xAAu8; min];
    update_rvlt_tmd(&mut exact, &hash).unwrap();
    assert!(
        exact[WII_SIG_START..WII_SIG_END].iter().all(|&b| b == 0),
        "signature zeroed"
    );
    assert_eq!(&exact[TMD_CONTENT0_HASH..min], &hash, "content hash written");
}

#[test]
fn short_blobs_are_reported_in_full() {
    assert_eq!(
        fakesign(&mut vec![0; 10]).unwrap_err().message(),
        "unsupported disc: ticket/TMD is only 10 bytes, too short to hold the RSA signature at 0x4..0x104 that must be zeroed to fakesign it (expected at least 260 bytes)"
    );
    assert_eq!(
        update_rvlt_tmd(&mut vec![0; 10], &[0; 20]).unwrap_err().message(),
        "unsupported disc: TMD is only 10 bytes, too short to hold the content hash at 0x1F4..0x208 (expected at least 520 bytes)"
    );
}

#[test]
fn drc_uses_own_art_when_present() {
    let drc = Some(vec![1, 2, 3]);
    let tv = Some(vec![9, 9]);
    assert_eq!(drc_source(drc, &tv), Some(vec![1, 2, 3]));
}

#[test]
fn drc_falls_back_to_tv_when_absent() {
    let tv = Some(vec![9, 9]);
    assert_eq!(drc_source(None, &tv), Some(vec![9, 9]));
}

#[test]
fn drc_is_none_when_neither_present() {
    assert_eq!(drc_source(None, &None), None);
}

fn config() -> Config {
    Config {
        input: "game.rvz".to_string(),
        out: "out".to_string(),
        wiiu_common_key: [9; 16],
        cert: CertChain(vec![]),
        title: None,
        icon_png: None,
        boot_tv_png: Some("tv.png".to_string()),
        boot_drc_png: None,
        region: Region::Europe,
        gamepad: true,
        online: true,
        video: VideoPatches { deflicker: false, half_vfilter: false, dithering: false },
        skip_gaps: true,
        trim_zeros: false,
        gamecube: None,
    }
}

fn gamecube() -> GameCubeOptions {
    GameCubeOptions {
        nintendont_dol: vec![1],
        apploader: vec![],
        widescreen: true,
        language: Language::German,
        video_mode: VideoMode::ForcePal60,
        memcard_emu: true,
        memcard_blocks: 3,
        max_pads: 2,
        wiiu_gamepad_slot: 1,
        cheat_path: Some("/c.gct".to_string()),
        disc_id: None,
        disc_title: None,
    }
}

#[test]
fn titles_fall_back_to_the_game_id() {
    let given = Some("Given".to_string());
    let found = Some("Found".to_string());
    assert_eq!(resolve_title(&given, true, found.clone(), "RSPE01"), "Given");
    assert_eq!(resolve_title(&None, true, found.clone(), "RSPE01"), "Found");
    assert_eq!(resolve_title(&None, false, found, "RSPE01"), "RSPE01");
    assert_eq!(resolve_title(&None, true, None, "RSPE01"), "RSPE01");
    let mut c = config();
    assert!(wants_lookup(&c));
    c.online = false;
    assert!(!wants_lookup(&c));
    c.online = true;
    c.title = given;
    assert!(!wants_lookup(&c));
}

#[test]
fn platforms_follow_the_options() {
    let mut c = config();
    assert_eq!(platform(&c), Platform::Wii);
    c.gamecube = Some(gamecube());
    assert_eq!(platform(&c), Platform::GameCube);
    assert_eq!(firmware_patches(Platform::Wii).len(), 2);
    assert_eq!(firmware_patches(Platform::GameCube).len(), 10);
}

#[test]
fn stages_end_with_the_package() {
    let wii = stages(Platform::Wii);
    assert_eq!(wii.last(), Some(&Stage::BuildPackage));
    assert!(wii.contains(&Stage::PlanDisc) && !wii.contains(&Stage::AuthorDisc));
    let gc = stages(Platform::GameCube);
    assert_eq!(&gc[gc.len() - 2..], &[Stage::BuildPackage, Stage::WriteNincfg]);
    assert_eq!(wii[wii.len() - 4..], gc[gc.len() - 5..gc.len() - 1]);
}

#[test]
fn rvlt_files_are_fakesigned() {
    let w = rvlt_files(Platform::Wii, "/code", vec![1; 0x2A4], vec![2; 0x208], &[3; 20]);
    assert!(w.error.is_none());
    assert_eq!(w.files[0].path, "/code/rvlt.tik");
    assert_eq!(w.files[1].path, "/code/rvlt.tmd");
    assert!(w.files.iter().all(|f| f.bytes[4..0x104].iter().all(|&b| b == 0)));
    assert_eq!(&w.files[1].bytes[0x1F4..0x208], &[3; 20]);

    let short_tmd = rvlt_files(Platform::Wii, "/code", vec![1; 0x2A4], vec![2; 0x207], &[3; 20]);
    assert_eq!(short_tmd.files.len(), 1);
    assert!(short_tmd.error.unwrap().message().contains("content hash"));
    let short_ticket = rvlt_files(Platform::Wii, "/code", vec![1; 3], vec![2; 0x208], &[3; 20]);
    assert!(short_ticket.files.is_empty());
    assert!(short_ticket.error.unwrap().message().contains("RSA signature"));

    let authored = rvlt_files(Platform::GameCube, "/code", vec![1; 3], vec![2; 4], &[3; 20]);
    assert!(authored.error.is_none());
    assert_eq!(authored.files[0].bytes, vec![1; 3]);
    assert_eq!(authored.files[1].bytes, vec![2; 4]);
}

#[test]
fn extras_are_best_effort() {
    let reads = |cert: Result<Vec<u8>, Error>, app: Result<Vec<u8>, Error>| {
        Ok(Some(BaseDiscReads { cert_chain: cert, apploader: app }))
    };
    let failed = || Err(Error::Other("no".to_string()));
    let both = base_disc_extras(reads(Ok(vec![1]), Ok(vec![2])), true);
    assert_eq!((both.cert_chain, both.apploader), (vec![1], Some(vec![2])));
    let own = base_disc_extras(reads(Ok(vec![1]), Ok(vec![2])), false);
    assert_eq!((own.cert_chain, own.apploader), (vec![1], None));
    let none = base_disc_extras(reads(failed(), failed()), true);
    assert_eq!((none.cert_chain, none.apploader), (vec![], None));
    let absent = base_disc_extras(Ok(None), true);
    assert_eq!((absent.cert_chain, absent.apploader), (vec![], None));
    let broken = base_disc_extras(Err(Error::Other("io".to_string())), true);
    assert_eq!((broken.cert_chain, broken.apploader), (vec![], None));
}

#[test]
fn the_carrier_disc_takes_the_first_name_there_is() {
    let mut opts = gamecube();
    let title = Some("Package".to_string());
    assert_eq!(carrier_title(&opts, &None, "GM2E8P"), "GM2E8P");
    assert_eq!(carrier_title(&opts, &title, "GM2E8P"), "Package");
    opts.disc_title = Some("Disc".to_string());
    assert_eq!(carrier_title(&opts, &title, "GM2E8P"), "Disc");
    assert!(wants_apploader(&opts));

    let extras = BaseDiscExtras { cert_chain: vec![5], apploader: Some(vec![6]) };
    let inputs = carrier_inputs(&opts, &extras, "Disc", *b"GM2E8P");
    assert_eq!(&inputs.game_id, b"GM2E8P");
    assert_eq!(inputs.apploader, &[6]);
    assert_eq!(inputs.cert_chain, &[5]);
    assert_eq!(inputs.main_dol, &[1]);

    opts.disc_id = Some(*b"CEMU69");
    opts.apploader = vec![7];
    let bare = BaseDiscExtras { cert_chain: vec![], apploader: None };
    let inputs = carrier_inputs(&opts, &bare, "Disc", *b"GM2E8P");
    assert_eq!(&inputs.game_id, b"CEMU69");
    assert_eq!(inputs.apploader, &[7]);
    assert!(!wants_apploader(&opts));
}

#[test]
fn settings_reach_the_files_they_belong_to() {
    let ids = wiivci_core::meta::titleid::derive(*b"RSPE");
    let c = config();
    let meta = meta_options(&c, Platform::GameCube, &ids, "T");
    assert_eq!((meta.region, meta.drc_use), (4, 0x1_0001));
    assert_eq!((meta.long_name, meta.short_name, meta.publisher), ("T", "T", ""));
    let nin = nincfg_options(&gamecube(), *b"GM2E");
    assert_eq!(&nin.game_id, b"GM2E");
    assert_eq!(nin.memcard_blocks, 3);
    assert_eq!(nin.language, Language::German);
    assert_eq!(nin.video_mode, VideoMode::ForcePal60);
    assert_eq!(nin.cheat_path.as_deref(), Some("/c.gct"));
    let params = package_params(&c, &ids);
    assert_eq!(params.title_id, 0x0005_0002_5253_5045);
    assert_eq!(params.group_id, 0x5045);
    assert_eq!(params.wiiu_common_key, [9; 16]);
    assert_eq!(params.title_key[..4], [0x13, 0x37, 0x13, 0x37]);
    let stats = PackageStats { content_count: 3, total_content_bytes: 4 };
    let s = summary(&c, &ids, "RSPE01".to_string(), "T".to_string(), stats);
    assert_eq!((s.title_id, s.out.as_str(), s.package), (ids.title_id, "out", stats));
}

#[test]
fn artwork_comes_from_files_or_the_repository() {
    let mut c = config();
    assert!(matches!(
        texture_source(&c, Platform::Wii, "RSPE01", BootTexture::BootTv),
        TextureSource::File(p) if p == "tv.png"
    ));
    assert!(matches!(
        texture_source(&c, Platform::GameCube, "GM2E8P", BootTexture::Icon),
        TextureSource::Download(u) if u.ends_with("/gcn/GM2E8P/iconTex.png")
    ));
    c.online = false;
    assert!(matches!(
        texture_source(&c, Platform::Wii, "RSPE01", BootTexture::Icon),
        TextureSource::Base
    ));
}

fn png(color: [u8; 4]) -> Vec<u8> {
    let img: ImageBuffer<Rgba<u8>, Vec<u8>> = ImageBuffer::from_pixel(4, 4, Rgba(color));
    let mut bytes = Vec::new();
    img.write_to(&mut Cursor::new(&mut bytes), ImageFormat::Png).unwrap();
    bytes
}

#[test]
fn textures_fall_back_to_the_tv_image() {
    let w = resolve_textures("/meta", Ok(None), Ok(Some(png([255, 0, 0, 255]))), Ok(None));
    assert!(w.error.is_none());
    let paths: Vec<&str> = w.files.iter().map(|f| f.path.as_str()).collect();
    assert_eq!(paths, vec!["/meta/bootTvTex.tga", "/meta/bootDrcTex.tga"]);
    assert_eq!(&w.files[1].bytes[18..21], &[0, 0, 255]);

    let own = resolve_textures(
        "/meta",
        Ok(Some(png([1, 2, 3, 255]))),
        Ok(None),
        Ok(Some(png([0, 255, 0, 255]))),
    );
    let paths: Vec<&str> = own.files.iter().map(|f| f.path.as_str()).collect();
    assert_eq!(paths, vec!["/meta/iconTex.tga", "/meta/bootDrcTex.tga"]);
    assert!(resolve_textures("/meta", Ok(None), Ok(None), Ok(None)).files.is_empty());
}

#[test]
fn textures_are_asked_for_one_by_one() {
    let mut run = TextureRun::new();
    assert_eq!(run.next_texture(), Some(BootTexture::Icon));
    assert!(run.step("/meta", Ok(None)).unwrap().is_none());
    assert_eq!(run.next_texture(), Some(BootTexture::BootTv));
    assert!(run.step("/meta", Err(Error::Other("gone".to_string()))).is_err());
    assert_eq!(run.next_texture(), Some(BootTexture::BootTv));
    let tv = run.step("/meta", Ok(Some(png([0, 255, 0, 255])))).unwrap().unwrap();
    assert_eq!(tv.path, "/meta/bootTvTex.tga");
    assert_eq!(run.next_texture(), Some(BootTexture::BootDrc));
    let drc = run.step("/meta", Ok(None)).unwrap().unwrap();
    assert_eq!(drc.path, "/meta/bootDrcTex.tga");
    assert_eq!(&drc.bytes[18..21], &[0, 255, 0]);
    assert_eq!(run.next_texture(), None);
}

#[test]
fn nincfg_goes_next_to_the_package() {
    assert_eq!(nincfg_path("/a/b/MyGame"), "/a/b/nincfg.bin");
    assert_eq!(nincfg_path("/a/b/MyGame/"), "/a/b/nincfg.bin");
    assert_eq!(nincfg_path("/a//MyGame"), "/a/nincfg.bin");
    assert_eq!(nincfg_path("/MyGame"), "/nincfg.bin");
    assert_eq!(nincfg_path("/"), "/nincfg.bin");
    assert_eq!(nincfg_path("MyGame"), "nincfg.bin");
}

#[test]
fn the_first_bad_texture_ends_it() {
    let good = || Ok(Some(png([255, 0, 0, 255])));
    let bad = resolve_textures("/meta", good(), Ok(Some(vec![1, 2, 3])), good());
    assert_eq!(bad.files.len(), 1);
    assert!(bad.error.unwrap().message().starts_with("failed to decode PNG: "));
    let unread = resolve_textures("/meta", good(), good(), Err(Error::Other("gone".to_string())));
    assert_eq!(unread.files.len(), 2);
    assert_eq!(unread.error.unwrap().message(), "gone");
    let first = resolve_textures("/meta", Err(Error::Other("gone".to_string())), good(), good());
    assert!(first.files.is_empty());
}

#[test]
fn regions_are_single_bits() {
    assert_eq!(
        [Region::Japan.code(), Region::Usa.code(), Region::Europe.code()],
        [1, 2, 4]
    );
}
