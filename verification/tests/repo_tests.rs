use sbpm::repo::{find_package, packages_from_db, search_packages, Package, RepoDb, RepoPackage};

fn entry(name: &str, version: &str, release: u32) -> (String, RepoPackage) {
    (
        name.to_string(),
        RepoPackage {
            version: version.to_string(),
            release,
            depends: vec![],
            size: 1024,
            sha256: "00".to_string(),
            url: format!("https://example.org/{}.swell", name),
        },
    )
}

fn sample() -> Vec<Package> {
    packages_from_db(RepoDb {
        packages: vec![
            entry("vim", "9.1", 1),
            entry("Bash", "5.2", 2),
            entry("neovim", "0.10", 1),
            entry("bash-completion", "2.11", 1),
        ],
    })
}

#[test]
fn packages_are_sorted_by_name() {
    let pkgs = sample();
    let names: Vec<&str> = pkgs.iter().map(|p| p.name.as_str()).collect();
    assert_eq!(names, vec!["Bash", "bash-completion", "neovim", "vim"]);
    let vim = &pkgs[3];
    assert_eq!(vim.version, "9.1");
    assert_eq!(vim.release, 1);
    assert_eq!(vim.url, "https://example.org/vim.swell");
    assert_eq!(vim.size, 1024);
}

#[test]
fn empty_index_gives_no_packages() {
    assert!(packages_from_db(RepoDb { packages: vec![] }).is_empty());
}

#[test]
fn find_is_exact() {
    let pkgs = sample();
    assert_eq!(find_package(&pkgs, "neovim").map(|p| p.version.as_str()), Some("0.10"));
    assert!(find_package(&pkgs, "bash").is_none());
    assert!(find_package(&pkgs, "vi").is_none());
}

#[test]
fn search_ignores_case() {
    let pkgs = sample();
    let found: Vec<&str> = search_packages(&pkgs, "BASH").iter().map(|p| p.name.as_str()).collect();
    assert_eq!(found, vec!["Bash", "bash-completion"]);
    let found: Vec<&str> = search_packages(&pkgs, "vim").iter().map(|p| p.name.as_str()).collect();
    assert_eq!(found, vec!["neovim", "vim"]);
    assert!(search_packages(&pkgs, "emacs").is_empty());
    assert_eq!(search_packages(&pkgs, "").len(), 4);
}

#[test]
fn search_lowercases_beyond_ascii() {
    let pkgs = packages_from_db(RepoDb { packages: vec![entry("ÉCOLE-tools", "1", 1), entry("ecole", "1", 1)] });
    let found: Vec<&str> = search_packages(&pkgs, "école").iter().map(|p| p.name.as_str()).collect();
    assert_eq!(found, vec!["ÉCOLE-tools"]);
}
