use wiivci_core::package::builder::{PackageBuild, PackageStats};
use wiivci_core::package::content::listing::Entry;
use wiivci_core::package::content::{plan, StagedTree};
use wiivci_core::package::output::{
    app_name, h3_name, is_known_output_name, is_sweepable_output_name, stale_outputs, StagedOutputs,
};

#[test]
fn known_output_name_matches_only_expected_patterns() {
    assert!(is_known_output_name("0000000f.app"));
    assert!(is_known_output_name("0000000f.h3"));
    assert!(is_known_output_name("deadbeef.app"));
    assert!(is_known_output_name("title.tmd"));
    assert!(is_known_output_name("title.tik"));
    assert!(is_known_output_name("title.cert"));

    assert!(!is_known_output_name("readme.txt"));
    assert!(!is_known_output_name("deadbeef.app.bak"));
    assert!(!is_known_output_name("deadbee.app"));
    assert!(!is_known_output_name("deadbeefg.app"));
    assert!(!is_known_output_name("nothex01.app"));
    assert!(!is_known_output_name("content"));

    for name in ["0000000f.app.part", "0000000f.h3.part", "title.tmd.part"] {
        assert!(!is_known_output_name(name), "{name}");
        assert!(is_sweepable_output_name(name), "{name}");
    }
    for name in ["readme.txt.part", "deadbeef.app.bak.part", ".part"] {
        assert!(!is_sweepable_output_name(name), "{name}");
    }
    assert!(is_sweepable_output_name("title.tmd"));
    assert!(is_sweepable_output_name("0000000f.app"));
}

#[test]
fn clean_stale_outputs_removes_only_known_patterns() {
    let known = [
        "0000000f.app",
        "0000000f.h3",
        "title.tmd",
        "00000010.app.part",
        "title.tik.part",
    ];
    let decoys = ["readme.txt", "deadbeef.app.bak", "readme.txt.part"];
    let mut listing: Vec<(String, bool)> =
        known.iter().chain(decoys.iter()).map(|n| (n.to_string(), true)).collect();
    listing.push(("00000001.app".to_string(), false));
    assert_eq!(stale_outputs(&listing), known);
}

#[test]
fn clean_stale_outputs_on_missing_dir_is_a_noop() {
    assert!(stale_outputs(&vec![]).is_empty());
}

#[test]
fn content_files_are_named_by_index() {
    assert_eq!(app_name(0x1A), "0000001a.app");
    assert_eq!(h3_name(0xFFFF), "0000ffff.h3");
}

#[test]
fn a_failed_rename_removes_what_was_renamed_and_what_was_not() {
    let mut staged = StagedOutputs::new("/out");
    assert_eq!(staged.stage("a"), "/out/a.part");
    staged.stage("b");
    staged.stage("c");
    assert_eq!(staged.leftovers(), vec!["/out/a.part", "/out/b.part", "/out/c.part"]);
    assert_eq!(staged.rollback(1), vec!["/out/a", "/out/b.part", "/out/c.part"]);
    assert!(staged.leftovers().is_empty(), "cleaned up already");
}

#[test]
fn a_commit_leaves_nothing_to_clean_up() {
    let mut staged = StagedOutputs::new("/out");
    staged.stage("a");
    staged.mark_committed();
    assert!(staged.leftovers().is_empty());
    assert_eq!(staged.pending, vec![("/out/a.part".to_string(), "/out/a".to_string())]);
}

fn file(name: &str, size: u64) -> Entry {
    Entry::File { name: name.to_string(), size, regular: true }
}

fn minimal_build() -> PackageBuild {
    let tree = StagedTree {
        code: vec![file("app.xml", 6), file("cos.xml", 6)],
        content: vec![file("hif_000000.nfs", 4)],
        meta: vec![file("meta.xml", 7)],
    };
    let plan = plan("/build", &tree, 0x0005_0002_1010_1000).unwrap();
    PackageBuild::new("/out", plan)
}

#[test]
fn successful_build_leaves_only_final_outputs() {
    let mut build = minimal_build();
    let mut size = 1;
    while let Some(step) = build.next_content() {
        assert_eq!(step.part, format!("/out/{}.part", app_name(step.content as u16)));
        if step.hashed {
            let h3 = build.stage_h3();
            assert_eq!(h3, format!("/out/{}.part", h3_name(step.content as u16)));
        }
        build.record(size, vec![0; 32]);
        size *= 2;
    }
    let (cert, tik, tmd) = build.stage_title_files();
    assert_eq!(cert, "/out/title.cert.part");
    assert_eq!(tik, "/out/title.tik.part");
    assert_eq!(tmd, "/out/title.tmd.part");
    let stats = build.stats();
    assert_eq!(stats, PackageStats { content_count: 5, total_content_bytes: 31 });

    let finals: Vec<String> = build.staged.pending.iter().map(|p| p.1.clone()).collect();
    assert_eq!(
        finals,
        vec![
            "/out/00000000.app",
            "/out/00000001.app",
            "/out/00000002.app",
            "/out/00000003.app",
            "/out/00000003.h3",
            "/out/00000004.app",
            "/out/00000004.h3",
            "/out/title.cert",
            "/out/title.tik",
            "/out/title.tmd",
        ]
    );
    for name in &finals {
        assert!(is_known_output_name(name.strip_prefix("/out/").unwrap()));
    }
    build.staged.mark_committed();
    assert!(build.staged.leftovers().is_empty());
    let records: Vec<(u32, u16, u64)> =
        build.records.iter().map(|r| (r.id, r.index, r.size)).collect();
    assert_eq!(records, vec![(0, 0, 1), (1, 1, 2), (2, 2, 4), (3, 3, 8), (4, 4, 16)]);
}

#[test]
fn failed_build_leaves_no_package_files() {
    let mut build = minimal_build();
    let step = build.next_content().unwrap();
    assert!(!step.hashed);
    build.record(1, vec![]);
    build.next_content().unwrap();
    let removed = build.staged.leftovers();
    assert_eq!(removed, vec!["/out/00000000.app.part", "/out/00000001.app.part"]);
    assert!(build
        .staged
        .pending
        .iter()
        .all(|p| removed.contains(&p.0) && p.1.ends_with(".app")));
}
