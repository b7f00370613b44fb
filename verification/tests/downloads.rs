use sha2::{Digest, Sha256};
use wiivci_core::assets::artrepo::{art_png_name, download_texture, texture_url, REPO_BASE};
use wiivci_core::assets::images::BootTexture;
use wiivci_core::assets::nintendont::{
    check_digest, download_boot_dol, hex, pinned_sha256, verify_sha256, NINTENDONT_LOADER_URL,
};
use wiivci_core::assets::Reply;
use wiivci_core::nus::{skipped_for_nfs, NusClient, NusReply, DEFAULT_NUS_URL};

#[test]
fn maps_texture_to_png_name() {
    assert_eq!(art_png_name(BootTexture::Icon), Some("iconTex.png"));
    assert_eq!(art_png_name(BootTexture::BootTv), Some("bootTvTex.png"));
    assert_eq!(art_png_name(BootTexture::BootDrc), Some("bootDrcTex.png"));
    assert_eq!(art_png_name(BootTexture::BootLogo), None);
}

#[test]
fn builds_expected_url() {
    let system = "wii";
    let id = "RSPE01";
    let png_name = art_png_name(BootTexture::Icon).unwrap();
    let url = format!("{REPO_BASE}/{system}/{id}/{png_name}");
    assert_eq!(
        url,
        "https://raw.githubusercontent.com/UWUVCI-PRIME/UWUVCI-IMAGES/master/wii/RSPE01/iconTex.png"
    );
    assert_eq!(texture_url(system, id, BootTexture::Icon), Some(url));
    assert_eq!(texture_url(system, id, BootTexture::BootLogo), None);
}

#[test]
fn failed_artwork_downloads_give_nothing() {
    assert_eq!(
        download_texture(BootTexture::Icon, Reply::Body(vec![1, 2])),
        Some(vec![1, 2])
    );
    assert_eq!(download_texture(BootTexture::Icon, Reply::Unreachable), None);
    assert_eq!(download_texture(BootTexture::Icon, Reply::Unreadable), None);
    assert_eq!(
        download_texture(BootTexture::Icon, Reply::Refused("404 Not Found".to_string())),
        None
    );
    assert_eq!(download_texture(BootTexture::BootLogo, Reply::Body(vec![1])), None);
}

#[test]
fn verify_sha256_accepts_matching_bytes() {
    let data = b"pretend this is the Nintendont forwarder";
    let expected: [u8; 32] = Sha256::digest(data).into();
    verify_sha256(data, &expected).expect("bytes must match their own hash");
}

#[test]
fn verify_sha256_rejects_mismatched_bytes() {
    let expected = [0xAAu8; 32];
    let err = verify_sha256(b"not the real forwarder", &expected).unwrap_err();
    let message = err.message();
    assert!(
        message.contains("does not match the pinned SHA-256"),
        "{message}"
    );
}

#[test]
fn mismatches_name_both_digests() {
    let err = check_digest(&[0x01; 32], &[0xFE; 32]).unwrap_err().message();
    assert!(err.contains(&hex(&[0x01; 32])) && err.contains(&hex(&[0xFE; 32])));
    assert!(err.contains(NINTENDONT_LOADER_URL));
    check_digest(&[7; 32], &[7; 32]).unwrap();
    assert_eq!(hex(&[0x00, 0x1F, 0xA0]), "001fa0");
}

#[test]
fn only_the_pinned_forwarder_is_accepted() {
    assert_eq!(
        download_boot_dol(Reply::Unreachable).unwrap_err().message(),
        format!("fetching Nintendont loader from {NINTENDONT_LOADER_URL}")
    );
    assert_eq!(
        download_boot_dol(Reply::Refused("404 Not Found".to_string()))
            .unwrap_err()
            .message(),
        format!("Nintendont download failed: {NINTENDONT_LOADER_URL} returned 404 Not Found")
    );
    assert_eq!(
        download_boot_dol(Reply::Unreadable).unwrap_err().message(),
        format!("reading Nintendont loader body from {NINTENDONT_LOADER_URL}")
    );
    let short = download_boot_dol(Reply::Body(vec![0; 100])).unwrap_err().message();
    assert!(short.contains("was only 100 bytes"), "{short}");
    let other = download_boot_dol(Reply::Body(vec![0; 0x4000])).unwrap_err().message();
    assert!(other.contains(&hex(&pinned_sha256())), "{other}");
}

#[test]
fn server_urls_have_a_fixed_shape() {
    let client = NusClient::new();
    assert_eq!(client.base_url, DEFAULT_NUS_URL);
    let mirror = NusClient::with_base_url("http://mirror/ccs//");
    assert_eq!(mirror.base_url, "http://mirror/ccs");
    assert_eq!(
        mirror.tmd(0x0005_0000_101B_0700, None),
        "http://mirror/ccs/00050000101b0700/tmd"
    );
    assert_eq!(mirror.tmd(1, Some(32)), "http://mirror/ccs/0000000000000001/tmd.32");
    assert_eq!(
        mirror.content(0xABCD, 0x1f),
        "http://mirror/ccs/000000000000abcd/0000001F"
    );
}

#[test]
fn server_replies_are_judged() {
    let get = wiivci_core::nus::get;
    assert_eq!(
        get("u", NusReply::Failed("refused".to_string())).unwrap_err().message(),
        "GET u: refused"
    );
    assert_eq!(
        get("u", NusReply::Refused("404 Not Found".to_string())).unwrap_err().message(),
        "GET u: HTTP 404 Not Found"
    );
    assert_eq!(get("u", NusReply::Announced(None)).unwrap(), None);
    assert_eq!(get("u", NusReply::Announced(Some(0x1_0000_0000))).unwrap(), None);
    assert_eq!(
        get("u", NusReply::Announced(Some(0x1_0000_0001))).unwrap_err().message(),
        "GET u: Content-Length 4294967297 exceeds the 4294967296-byte sanity limit; refusing to download it"
    );
    assert_eq!(
        get("u", NusReply::Unreadable("timed out".to_string())).unwrap_err().message(),
        "reading u: timed out"
    );
    assert_eq!(get("u", NusReply::Body(vec![9])).unwrap(), Some(vec![9]));
}

#[test]
fn only_game_data_and_its_key_are_kept_for_the_original_disc() {
    assert!(!skipped_for_nfs("hif_000000.nfs"));
    assert!(!skipped_for_nfs("htk.bin"));
    assert!(skipped_for_nfs("app.xml"));
    assert!(skipped_for_nfs("hif_000000.nfs.bak"));
}
