use wiivci_core::fwimg::{
    ahbprot, apply_patches, fakesign_a, fakesign_patches, homebrew_patches, memprot, patch_file,
    unmatched_groups, BytePatch,
};

#[test]
fn fakesign_patches_every_site() {
    let mut data = vec![0u8; 32];
    data[4..8].copy_from_slice(&[0x20, 0x07, 0x23, 0xA2]);
    data[20..24].copy_from_slice(&[0x20, 0x07, 0x23, 0xA2]);
    let applied = apply_patches(&mut data, &vec![fakesign_a()]);
    assert_eq!(applied, vec!["fakesign"]);
    assert_eq!(data[5], 0x00);
    assert_eq!(data[21], 0x00);
}

#[test]
fn ahbprot_replaces_first_two_bytes_of_match() {
    let mut data = vec![0xFFu8; 16];
    data[3..11].copy_from_slice(&[0xD0, 0x0B, 0x23, 0x08, 0x43, 0x13, 0x60, 0x0B]);
    let applied = apply_patches(&mut data, &vec![ahbprot()]);
    assert_eq!(applied, vec!["AHBPROT-disable"]);
    assert_eq!(&data[3..5], &[0x46, 0xC0]);
    assert_eq!(&data[5..11], &[0x23, 0x08, 0x43, 0x13, 0x60, 0x0B]);
}

#[test]
fn memprot_clears_trailing_flag() {
    let mut data = vec![0u8; 16];
    data[0..8].copy_from_slice(&[0x01, 0x94, 0xB5, 0x00, 0x4B, 0x08, 0x22, 0x01]);
    let applied = apply_patches(&mut data, &vec![memprot()]);
    assert_eq!(applied, vec!["MEMPROT-disable"]);
    assert_eq!(&data[6..8], &[0x22, 0x00]);
}

#[test]
fn missing_pattern_is_skipped_not_applied() {
    let mut data = vec![0u8; 16];
    let applied = apply_patches(&mut data, &vec![ahbprot()]);
    assert!(applied.is_empty());
    assert_eq!(data, vec![0u8; 16], "no bytes changed when pattern absent");
}

#[test]
fn matched_alternate_satisfies_the_fakesign_group() {
    let mut data = vec![0u8; 16];
    data[4..8].copy_from_slice(&[0x20, 0x07, 0x4B, 0x0B]);
    let applied = apply_patches(&mut data, &fakesign_patches());
    assert_eq!(applied, vec!["fakesign(alt)"]);
    assert!(
        unmatched_groups(&fakesign_patches(), &applied).is_empty(),
        "a matched alternate must satisfy the fakesign group"
    );
}

#[test]
fn fully_unmatched_group_is_reported() {
    let mut data = vec![0u8; 16];
    let applied = apply_patches(&mut data, &homebrew_patches());
    assert!(applied.is_empty());
    assert_eq!(
        unmatched_groups(&homebrew_patches(), &applied),
        vec![
            "fakesign",
            "AHBPROT",
            "MEMPROT",
            "wiimote-passthrough-1",
            "wiimote-passthrough-2",
            "wiimote-passthrough-3",
            "nintendont-1",
            "nintendont-2",
            "nintendont-3",
        ]
    );
}

#[test]
fn first_match_only_when_not_all() {
    let mut data = vec![0u8; 32];
    data[0..8].copy_from_slice(&[0x01, 0x94, 0xB5, 0x00, 0x4B, 0x08, 0x22, 0x01]);
    data[16..24].copy_from_slice(&[0x01, 0x94, 0xB5, 0x00, 0x4B, 0x08, 0x22, 0x01]);
    apply_patches(&mut data, &vec![memprot()]);
    assert_eq!(&data[6..8], &[0x22, 0x00], "first match patched");
    assert_eq!(&data[22..24], &[0x22, 0x01], "second match left alone");
}

#[test]
fn every_homebrew_patch_finds_its_own_signature() {
    for (i, p) in homebrew_patches().iter().enumerate() {
        let mut data = vec![0u8; 8];
        data.extend_from_slice(&p.find);
        data.extend_from_slice(&[0u8; 8]);
        let one = vec![homebrew_patches().swap_remove(i)];
        let applied = apply_patches(&mut data, &one);
        assert_eq!(applied, vec![p.name]);
        let at = 8 + p.at;
        assert_eq!(&data[at..at + p.write.len()], p.write.as_slice());
        assert_eq!(data.len(), 16 + p.find.len());
    }
}

#[test]
fn a_file_is_rewritten_only_where_something_was_patched() {
    let untouched = patch_file(vec![0u8; 64], &fakesign_patches());
    assert!(untouched.applied.is_empty());
    assert!(untouched.rewritten.is_none());
    assert_eq!(untouched.unmatched, vec!["fakesign"]);
    let mut data = vec![0u8; 16];
    data[4..8].copy_from_slice(&[0x20, 0x07, 0x23, 0xA2]);
    let patched = patch_file(data, &fakesign_patches());
    assert_eq!(patched.applied, vec!["fakesign"]);
    assert_eq!(patched.rewritten.unwrap()[5], 0);
    assert!(patched.unmatched.is_empty());
}

#[test]
fn fakesigning_again_finds_nothing() {
    let mut data = vec![0x20u8; 64];
    for at in [0, 4, 21, 60] {
        data[at..at + 4].copy_from_slice(&[0x20, 0x07, 0x23, 0xA2]);
    }
    data[40..44].copy_from_slice(&[0x20, 0x07, 0x4B, 0x0B]);
    assert_eq!(apply_patches(&mut data, &fakesign_patches()), vec!["fakesign", "fakesign(alt)"]);
    let once = data.clone();
    assert!(apply_patches(&mut data, &fakesign_patches()).is_empty());
    assert_eq!(data, once);
}

#[test]
fn a_replacement_can_reach_past_its_match() {
    let patch = BytePatch {
        name: "far",
        group: "far",
        find: vec![1, 2],
        at: 1,
        write: vec![7, 8, 9],
        all: true,
    };
    let mut data = vec![0, 1, 2, 1, 2, 0, 0];
    assert_eq!(apply_patches(&mut data, &vec![patch]), vec!["far"]);
    assert_eq!(data, vec![0, 1, 7, 8, 9, 0, 0]);
}
