use wiivci_core::base::{
    check_code_files, copy_tree, finalize_stage, find_title, is_base_game_nfs, is_stage_subdir,
    open_base, plan_original_nfs, required_code_files, safe_join, ArchiveEntry, BaseKind, CopyStep,
    DirBase, RootEntry,
};
use wiivci_core::error::Error;
use wiivci_core::package::content::listing::Entry;
use wiivci_core::paths::{to_slashes, Host};

fn file(name: &str, size: u64) -> Entry {
    Entry::File { name: name.to_string(), size, regular: true }
}

fn dir(name: &str, entries: Vec<Entry>) -> Entry {
    Entry::Dir { name: name.to_string(), entries }
}

#[test]
fn safe_join_accepts_normal_nested_names() {
    let base = "/out";
    assert_eq!(safe_join(base, "code/app.xml", Host::Posix).unwrap(), "/out/code/app.xml");
    assert_eq!(safe_join(base, "meta.xml", Host::Posix).unwrap(), "/out/meta.xml");
}

#[test]
fn safe_join_rejects_parent_dir_traversal() {
    let base = "/out";
    assert!(safe_join(base, "../x", Host::Posix).is_err());
    assert!(safe_join(base, "a/../../b", Host::Posix).is_err());
    assert!(safe_join(base, "code/../../../etc/passwd", Host::Posix).is_err());
}

#[test]
fn safe_join_rejects_absolute_paths() {
    let base = "/out";
    assert!(safe_join(base, "/abs", Host::Posix).is_err());
    assert!(safe_join(base, "/etc/passwd", Host::Posix).is_err());
}

#[test]
fn safe_join_rejects_empty_name() {
    let base = "/out";
    assert!(safe_join(base, "", Host::Posix).is_err());
}

#[test]
fn safe_join_rejects_dots_anywhere() {
    for rel in ["a/./b", "a/.", ".", "./a", "a/..", ".."] {
        let err = safe_join("/out", rel, Host::Posix).unwrap_err();
        assert!(matches!(err, Error::InvalidTitle(_)));
        assert_eq!(
            err.message(),
            safe_join("/out", "/x", Host::Posix).unwrap_err().message().replace("/x", rel)
        );
    }
    assert_eq!(safe_join("/out", "a/.b", Host::Posix).unwrap(), "/out/a/.b");
    assert_eq!(safe_join("/out", "a/...", Host::Posix).unwrap(), "/out/a/...");
    assert_eq!(safe_join("/out", "a//b", Host::Posix).unwrap(), "/out/a//b");
}

#[test]
fn safe_join_knows_the_separators_of_the_host() {
    for rel in ["..\\x", "a\\..\\..\\b", "a\\.\\b", "\\abs", "\\\\host\\share", "C:x", "c:\\x"] {
        let err = safe_join("C:/out", rel, Host::Windows).unwrap_err();
        assert!(matches!(err, Error::InvalidTitle(_)), "{rel}");
        assert!(err.message().ends_with(&format!("{rel:?}")), "{rel}");
    }
    assert_eq!(safe_join("C:/out", "a\\b", Host::Windows).unwrap(), "C:/out/a/b");
    assert_eq!(safe_join("C:/out", "ab:c", Host::Windows).unwrap(), "C:/out/ab:c");
    assert_eq!(safe_join("/out", "..\\x", Host::Posix).unwrap(), "/out/..\\x");
    assert_eq!(safe_join("/out", "C:x", Host::Posix).unwrap(), "/out/C:x");
    assert_eq!(to_slashes("C:\\a/b", Host::Windows), "C:/a/b");
    assert_eq!(to_slashes("a\\b", Host::Posix), "a\\b");
}

#[test]
fn copy_tree_refuses_names_that_lead_elsewhere() {
    for bad in [".", "..", "a/./b", "/abs"] {
        let mut steps = Vec::new();
        let entries = vec![dir("sub", vec![file("ok", 1), file(bad, 1)])];
        assert!(copy_tree("src", "out", &entries, Host::Posix, &mut steps).is_err(), "{bad}");
        for step in &steps {
            let to = match step {
                CopyStep::MakeDir(d) => d,
                CopyStep::CopyFile(_, to) => to,
            };
            assert!(to == "out" || to.starts_with("out/"));
        }
    }
}

#[test]
fn copy_tree_copies_nested_files_and_skips_hif() {
    let entries = vec![
        dir("sub", vec![file("b.txt", 1), file("hif_000001.nfs", 8)]),
        file("a.txt", 1),
        file("hif_000000.nfs", 7),
    ];
    let mut steps = Vec::new();
    copy_tree("src", "out", &entries, Host::Posix, &mut steps).unwrap();
    let mut copied: Vec<(String, String)> = Vec::new();
    let mut made = Vec::new();
    for step in steps {
        match step {
            CopyStep::MakeDir(d) => made.push(d),
            CopyStep::CopyFile(a, b) => copied.push((a, b)),
        }
    }
    copied.sort();
    assert_eq!(
        copied,
        vec![
            ("src/a.txt".to_string(), "out/a.txt".to_string()),
            ("src/sub/b.txt".to_string(), "out/sub/b.txt".to_string()),
        ]
    );
    assert_eq!(made, vec!["out".to_string(), "out/sub".to_string()]);
}

#[test]
fn copying_stops_at_a_refused_name() {
    let entries = vec![file("a.txt", 1), file("..", 1), file("b.txt", 1)];
    let mut steps = Vec::new();
    assert!(copy_tree("src", "out", &entries, Host::Posix, &mut steps).is_err());
    assert_eq!(steps.len(), 2);
}

#[test]
fn dirbase_new_finds_code_directly_or_one_level_down() {
    assert_eq!(DirBase::new("/base", true, &vec![]).unwrap().root, "/base");
    let candidates = vec![("random".to_string(), false), ("SomeTitle_v0".to_string(), true)];
    assert_eq!(
        DirBase::new("/base", false, &candidates).unwrap().root,
        "/base/SomeTitle_v0"
    );
}

#[test]
fn dirbase_new_errors_when_no_code_dir_found() {
    let candidates = vec![("random".to_string(), false)];
    let Err(err) = DirBase::new("/base", false, &candidates) else {
        panic!("expected an error for a directory with no code/ anywhere");
    };
    assert!(matches!(err, Error::InvalidTitle(_)), "got {}", err.message());
}

#[test]
fn open_base_dispatches_on_extension_and_kind() {
    assert!(matches!(open_base("/base", true), Ok(BaseKind::Directory)));
    assert!(matches!(open_base("/base/nope.WUA", false), Ok(BaseKind::Archive)));
    let Err(err2) = open_base("/base/something.bin", false) else {
        panic!("expected a plain file with no .wua extension to be rejected");
    };
    assert!(matches!(err2, Error::InvalidTitle(_)), "got {}", err2.message());
    assert!(err2
        .message()
        .contains("must be a directory or a .wua archive"));
}

#[test]
fn hidden_files_have_no_extension() {
    assert!(open_base("/base/.wua", false).is_err());
    assert!(matches!(open_base("/base/a.b.wua", false), Ok(BaseKind::Archive)));
    assert!(open_base("/base.wua/file", false).is_err());
}

#[test]
fn original_game_data_is_found_by_its_first_file() {
    let dir = DirBase { root: "/base".to_string() };
    assert_eq!(dir.original_nfs(true, true), Some("/base/content".to_string()));
    assert_eq!(dir.original_nfs(false, true), None);
    assert_eq!(dir.original_nfs(true, false), None);
}

#[test]
fn archive_game_data_is_planned_with_its_key() {
    let content = vec![file("hif_000001.nfs", 2), file("hif_000000.nfs", 1), file("x.gsh", 3)];
    let code = vec![file("htk.bin", 16)];
    let plan = plan_original_nfs("/tmp", Some(&content), Some(&code), Host::Posix).unwrap();
    assert_eq!(plan.content_dir, "/tmp/content");
    assert_eq!(plan.htk.as_deref(), Some("/tmp/code/htk.bin"));
    assert_eq!(
        plan.files,
        vec![
            ("hif_000001.nfs".to_string(), "/tmp/content/hif_000001.nfs".to_string()),
            ("hif_000000.nfs".to_string(), "/tmp/content/hif_000000.nfs".to_string()),
        ]
    );
    assert!(plan.refused.is_none());
    assert!(plan_original_nfs("/tmp", None, Some(&code), Host::Posix).is_none());
    assert!(plan_original_nfs("/tmp", Some(&vec![file("x", 1)]), Some(&code), Host::Posix).is_none());
    let keyless = plan_original_nfs("/tmp", Some(&content), None, Host::Posix).unwrap();
    assert!(keyless.htk.is_none());
}

#[test]
fn the_first_title_of_an_archive_is_found() {
    let code = || ArchiveEntry { name: b"code".to_vec(), is_dir: true };
    let other = || ArchiveEntry { name: b"code".to_vec(), is_dir: false };
    let root = vec![
        RootEntry { is_dir: false, children: Err("a file".to_string()) },
        RootEntry { is_dir: true, children: Ok(vec![other()]) },
        RootEntry { is_dir: true, children: Ok(vec![other(), code()]) },
        RootEntry { is_dir: true, children: Err("damaged".to_string()) },
    ];
    assert_eq!(find_title("t.wua", &root).unwrap(), 2);
    let damaged = vec![
        RootEntry { is_dir: true, children: Err("damaged".to_string()) },
        RootEntry { is_dir: true, children: Ok(vec![code()]) },
    ];
    assert_eq!(
        find_title("t.wua", &damaged).unwrap_err().message(),
        "reading directory entries on t.wua: damaged"
    );
    let err = find_title("t.wua", &vec![]).unwrap_err();
    assert!(matches!(err, Error::InvalidTitle(_)));
    assert!(err.message().contains("t.wua"));
}

#[test]
fn staging_needs_the_framework_and_a_key() {
    let names: Vec<String> = required_code_files().iter().map(|n| n.to_string()).collect();
    check_code_files("/build", &names).unwrap();
    let err = check_code_files("/build", &names[1..].to_vec()).unwrap_err();
    assert!(matches!(&err, Error::MissingFile(m) if m.contains(&names[0])), "{}", err.message());
    let staged = finalize_stage("/build", &[7u8; 16]).unwrap();
    assert_eq!(staged.htk, [7u8; 16]);
    assert_eq!(staged.code_dir, "/build/code");
    assert_eq!(staged.content_dir, "/build/content");
    assert_eq!(staged.meta_dir, "/build/meta");
    let err = finalize_stage("/build", &[7u8; 15]).unwrap_err();
    assert_eq!(
        err.message(),
        "invalid key 'htk.bin': expected 16 bytes, got 15"
    );
}

#[test]
fn only_three_directories_are_staged() {
    assert!(is_stage_subdir("code") && is_stage_subdir("content") && is_stage_subdir("meta"));
    assert!(!is_stage_subdir("Code") && !is_stage_subdir("other"));
    assert!(is_base_game_nfs("hif_000000.nfs"));
    assert!(!is_base_game_nfs("HIF_000000.nfs"));
}
