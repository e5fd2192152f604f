use sbpm::package::{checksums_from, find_package, repo_categories, Package};

#[test]
fn from_dir_reads_files() {
    let pkg = Package::from_dir(
        "/usr/src/swell/repo/core/vim",
        "vim",
        Some(" 9.1 \n"),
        Some("ncurses\n\n  glibc\n"),
        None,
        vec!["b.patch".to_string(), "a.patch".to_string()],
    )
    .unwrap();
    assert_eq!(pkg.name, "vim");
    assert_eq!(pkg.path, "/usr/src/swell/repo/core/vim");
    assert_eq!(pkg.version, "9.1");
    assert_eq!(pkg.depends, vec!["ncurses".to_string(), "glibc".to_string()]);
    assert!(pkg.sources.is_empty());
    assert_eq!(
        pkg.patches,
        vec![
            "/usr/src/swell/repo/core/vim/patches/a.patch".to_string(),
            "/usr/src/swell/repo/core/vim/patches/b.patch".to_string(),
        ]
    );
    assert_eq!(pkg.build_script_path(), "/usr/src/swell/repo/core/vim/swellbuild");
    assert_eq!(pkg.sha256_path(), "/usr/src/swell/repo/core/vim/.sha256");
}

#[test]
fn from_dir_needs_a_version() {
    assert!(Package::from_dir("/x/vim", "vim", None, None, None, vec![]).is_none());
}

#[test]
fn checksum_lines() {
    let content = "abc123  vim-9.1.tar.gz\n\n def456 *patch.diff \nnospace\n999  vim-9.1.tar.gz\n";
    let mut pairs = checksums_from(content);
    pairs.sort();
    assert_eq!(
        pairs,
        vec![
            ("patch.diff".to_string(), "def456".to_string()),
            ("vim-9.1.tar.gz".to_string(), "999".to_string()),
        ]
    );
}

#[test]
fn find_source_package() {
    let a = Package::from_dir("/r/a", "a", Some("1"), None, None, vec![]).unwrap();
    let b = Package::from_dir("/r/b", "b", Some("2"), None, None, vec![]).unwrap();
    let pkgs = vec![a, b];
    assert_eq!(find_package(&pkgs, "b").map(|p| p.version.as_str()), Some("2"));
    assert!(find_package(&pkgs, "c").is_none());
}

#[test]
fn categories_in_order() {
    assert_eq!(
        repo_categories(),
        vec!["meta", "core", "desktop", "browser", "dev", "gaming", "multimedia", "office", "network"]
    );
}
