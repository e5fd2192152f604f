use sbpm::db::{
    all_frozen, freeze_package, freeze_path, get_installed_files, get_installed_version,
    is_frozen, manifest_dir, manifest_file, package_record_dir, record_install, repo_cache_path,
    unfreeze_package, version_file, version_string, FileUpdate,
};

#[test]
fn paths_are_under_var_lib_sbpm() {
    assert_eq!(manifest_dir(), "/var/lib/sbpm/installed");
    assert_eq!(freeze_path(), "/var/lib/sbpm/freeze");
    assert_eq!(repo_cache_path(), "/var/lib/sbpm/repo.db");
    assert_eq!(package_record_dir("vim"), "/var/lib/sbpm/installed/vim");
    assert_eq!(manifest_file("vim"), "/var/lib/sbpm/installed/vim/manifest");
    assert_eq!(version_file("vim"), "/var/lib/sbpm/installed/vim/version");
}

#[test]
fn absolute_name_replaces_the_record_dir() {
    assert_eq!(package_record_dir("/etc"), "/etc");
}

#[test]
fn is_frozen_reads_trimmed_lines() {
    assert!(!is_frozen(None, "vim"));
    assert!(is_frozen(Some("bash\n  vim  \r\nzsh"), "vim"));
    assert!(!is_frozen(Some("bash\nvimx\n"), "vim"));
    assert!(!is_frozen(Some(""), "vim"));
}

#[test]
fn freeze_sorts_and_dedups() {
    assert_eq!(freeze_package(None, "vim"), "vim\n");
    assert_eq!(freeze_package(Some("zsh\nbash\n"), "vim"), "bash\nvim\nzsh\n");
    assert_eq!(freeze_package(Some("vim\nbash\n"), "vim"), "bash\nvim\n");
}

#[test]
fn freeze_keeps_an_empty_line_as_a_name() {
    assert_eq!(freeze_package(Some("b\n\na\n"), "c"), "\na\nb\nc\n");
}

#[test]
fn frozen_after_freeze() {
    let before = "zsh\nbash\n";
    let after = freeze_package(Some(before), "vim");
    assert!(is_frozen(Some(&after), "vim"));
    assert!(is_frozen(Some(&after), "zsh"));
    assert!(!is_frozen(Some(&after), "emacs"));
}

#[test]
fn unfreeze_cases() {
    assert!(matches!(unfreeze_package(None, "vim"), FileUpdate::Keep));
    assert!(matches!(unfreeze_package(Some("vim\n"), "vim"), FileUpdate::Remove));
    assert!(matches!(unfreeze_package(Some("\n  \nvim\n"), "vim"), FileUpdate::Remove));
    match unfreeze_package(Some("zsh\nvim\nbash\nzsh\n"), "vim") {
        FileUpdate::Write(s) => {
            assert_eq!(s, "bash\nzsh\nzsh\n");
            assert!(!is_frozen(Some(&s), "vim"));
        }
        _ => panic!("expected a write"),
    }
}

#[test]
fn all_frozen_lists_nonempty_trimmed_lines() {
    assert_eq!(all_frozen(None), Vec::<String>::new());
    assert_eq!(all_frozen(Some(" vim \n\nbash\r\n")), vec!["vim".to_string(), "bash".to_string()]);
}

#[test]
fn manifest_round_trip() {
    let files = vec!["/usr/bin/vim".to_string(), "/usr/share/vim/vimrc".to_string()];
    let rec = record_install("9.1", 3, &files);
    assert_eq!(rec.manifest, "/usr/bin/vim\n/usr/share/vim/vimrc");
    assert_eq!(rec.version, "9.1-3\n");
    assert_eq!(get_installed_files(Some(&rec.manifest)), files);
    assert_eq!(get_installed_version(Some(&rec.version)), Some("9.1-3".to_string()));
}

#[test]
fn installed_files_without_manifest() {
    assert_eq!(get_installed_files(None), Vec::<String>::new());
    assert_eq!(get_installed_version(None), None);
}

#[test]
fn version_string_formats_release() {
    assert_eq!(version_string("1.2.3", 0), "1.2.3-0");
    assert_eq!(version_string("2024.01", 4294967295), "2024.01-4294967295");
    assert_eq!(version_string("", 10), "-10");
}

#[test]
fn freezing_twice_writes_the_same_file() {
    let once = freeze_package(Some("zsh\n\n bash\n"), "vim");
    let twice = freeze_package(Some(&once), "vim");
    assert_eq!(once, twice);
}
