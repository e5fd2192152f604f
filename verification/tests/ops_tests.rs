use sbpm::db::{get_installed_version, record_install};
use sbpm::ops::{
    build_tool_candidates, find_swell_build, is_built_package, names_a_path,
    parse_metadata_depends, parse_metadata_version, plan_upgrade, InstallAction, InstallEvent,
    InstallWalk, UpgradeAction,
};
use sbpm::repo::{packages_from_db, Package, RepoDb, RepoPackage};

fn repo() -> Vec<Package> {
    let mk = |name: &str, version: &str, release: u32, depends: Vec<&str>| {
        (
            name.to_string(),
            RepoPackage {
                version: version.to_string(),
                release,
                depends: depends.into_iter().map(|d| d.to_string()).collect(),
                size: 2048,
                sha256: "ff".to_string(),
                url: format!("https://example.org/{}.swell", name),
            },
        )
    };
    packages_from_db(RepoDb {
        packages: vec![mk("vim", "9.1", 2, vec!["ncurses"]), mk("ncurses", "6.4", 1, vec![])],
    })
}

#[test]
fn metadata_version_and_release() {
    let m = "name = \"vim\"\nversion = \"9.1\"\nrelease = 3\ndepends = [\"ncurses\", \"glibc\"]\n";
    assert_eq!(parse_metadata_version(m), Ok(("9.1".to_string(), 3)));
}

#[test]
fn metadata_last_value_wins_and_bad_release_is_zero() {
    let m = "version = \"1\"\n  version = \"2\"  \nrelease = x\n";
    assert_eq!(parse_metadata_version(m), Ok(("2".to_string(), 0)));
    let m = "version = 1.0\nrelease = +7\n";
    assert_eq!(parse_metadata_version(m), Ok(("1.0".to_string(), 7)));
}

#[test]
fn metadata_without_version_is_an_error() {
    assert_eq!(
        parse_metadata_version("release = 1\n"),
        Err("version not found in metadata.toml".to_string())
    );
    assert_eq!(
        parse_metadata_version("version = \"\"\n"),
        Err("version not found in metadata.toml".to_string())
    );
}

#[test]
fn metadata_depends_list() {
    let m = "version = \"9.1\"\ndepends = [\"ncurses\", \"glibc\", \"\"]\ndepends = [\"x\"]\n";
    assert_eq!(parse_metadata_depends(m), vec!["ncurses".to_string(), "glibc".to_string()]);
    assert!(parse_metadata_depends("depends = []\n").is_empty());
    assert!(parse_metadata_depends("version = \"1\"\n").is_empty());
    assert_eq!(parse_metadata_depends("depends = a, b\n"), vec!["a".to_string(), "b".to_string()]);
}

#[test]
fn upgrade_decisions() {
    let pkgs = repo();
    assert!(matches!(plan_upgrade(&pkgs, "vim", true, Some("1-1")), UpgradeAction::SkipFrozen));
    assert!(matches!(plan_upgrade(&pkgs, "emacs", false, None), UpgradeAction::NotInRepo));
    match plan_upgrade(&pkgs, "vim", false, Some("9.1-2")) {
        UpgradeAction::UpToDate { available } => assert_eq!(available, "9.1-2"),
        _ => panic!("expected up to date"),
    }
    match plan_upgrade(&pkgs, "vim", false, Some("9.0-1")) {
        UpgradeAction::Upgrade { package, current, available } => {
            assert_eq!(package.name, "vim");
            assert_eq!(current, "9.0-1");
            assert_eq!(available, "9.1-2");
        }
        _ => panic!("expected an upgrade"),
    }
    match plan_upgrade(&pkgs, "vim", false, None) {
        UpgradeAction::Upgrade { current, .. } => assert_eq!(current, ""),
        _ => panic!("expected an upgrade"),
    }
}

#[test]
fn recorded_install_is_up_to_date() {
    let pkgs = repo();
    let vim = pkgs.iter().find(|p| p.name == "vim").unwrap();
    let rec = record_install(&vim.version, vim.release, &["/usr/bin/vim".to_string()]);
    let installed = get_installed_version(Some(&rec.version));
    assert!(matches!(
        plan_upgrade(&pkgs, "vim", false, installed.as_deref()),
        UpgradeAction::UpToDate { .. }
    ));
}

fn walk(pkgs: &[Package], name: &str, installed: &[&str]) -> (Vec<String>, Result<(), String>) {
    let (mut w, mut action) = InstallWalk::start(name);
    let mut done: Vec<String> = installed.iter().map(|s| s.to_string()).collect();
    let mut log = Vec::new();
    for _ in 0..100 {
        let event = match action {
            InstallAction::Check { name, dependency } => {
                let inst = done.contains(&name);
                if dependency && !inst {
                    log.push(format!("dep {}", name));
                }
                InstallEvent::Installed(inst)
            }
            InstallAction::AlreadyInstalled(n) => {
                log.push(format!("already {}", n));
                return (log, Ok(()));
            }
            InstallAction::Missing(e) => return (log, Err(e)),
            InstallAction::Install(i) => {
                log.push(format!("install {}", pkgs[i].name));
                done.push(pkgs[i].name.clone());
                InstallEvent::Finished
            }
            InstallAction::Done => return (log, Ok(())),
        };
        action = w.step(pkgs, event);
    }
    (log, Err("did not end".to_string()))
}

#[test]
fn install_walk_installs_dependencies_first() {
    let pkgs = repo();
    let (log, res) = walk(&pkgs, "vim", &[]);
    assert_eq!(res, Ok(()));
    assert_eq!(log, vec!["dep ncurses", "install ncurses", "install vim"]);
}

#[test]
fn install_walk_skips_installed() {
    let pkgs = repo();
    let (log, res) = walk(&pkgs, "vim", &["ncurses"]);
    assert_eq!(res, Ok(()));
    assert_eq!(log, vec!["install vim"]);
    let (log, res) = walk(&pkgs, "vim", &["vim"]);
    assert_eq!(res, Ok(()));
    assert_eq!(log, vec!["already vim"]);
}

#[test]
fn install_walk_reports_missing() {
    let pkgs = repo();
    let (_, res) = walk(&pkgs, "emacs", &[]);
    assert_eq!(res, Err("package not found: emacs".to_string()));
    let broken = packages_from_db(RepoDb {
        packages: vec![(
            "a".to_string(),
            RepoPackage {
                version: "1".to_string(),
                release: 1,
                depends: vec!["gone".to_string()],
                size: 0,
                sha256: String::new(),
                url: String::new(),
            },
        )],
    });
    let (log, res) = walk(&broken, "a", &[]);
    assert_eq!(log, vec!["dep gone"]);
    assert_eq!(res, Err("package not found: gone".to_string()));
}

#[test]
fn install_walk_keeps_descending_into_a_cycle() {
    let mk = |name: &str, dep: &str| {
        (
            name.to_string(),
            RepoPackage {
                version: "1".to_string(),
                release: 1,
                depends: vec![dep.to_string()],
                size: 0,
                sha256: String::new(),
                url: String::new(),
            },
        )
    };
    let pkgs = packages_from_db(RepoDb { packages: vec![mk("a", "b"), mk("b", "a")] });
    let (_, res) = walk(&pkgs, "a", &[]);
    assert_eq!(res, Err("did not end".to_string()));
}

#[test]
fn build_tool_choice() {
    assert_eq!(find_swell_build(&[false, true]), Ok("/usr/local/bin/swell-build".to_string()));
    assert_eq!(find_swell_build(&[true]), Ok("swell-build".to_string()));
    assert_eq!(
        find_swell_build(&[false, false, false, false, true]),
        Err("swell-build not found. Install it from https://github.com/SwellOS/swell-build or set up the build workspace at /usr/src/swell/".to_string())
    );
    assert!(find_swell_build(&[]).is_err());
}

#[test]
fn built_package_names() {
    assert!(is_built_package("vim-9.1-1-x86_64.swell", "vim"));
    assert!(!is_built_package("vim-9.1-1-x86_64.tar", "vim"));
    assert!(!is_built_package("vimx-9.1-1.swell", "vim"));
    assert!(!is_built_package("vim.swell", "vim"));
}

#[test]
fn build_tool_lookup() {
    let c = build_tool_candidates();
    assert_eq!(c.len(), 4);
    assert_eq!(c[0], "swell-build");
    assert!(!names_a_path(&c[0]));
    assert!(names_a_path(&c[1]));
    assert_eq!(c[3], "/usr/src/swell/swell-build/target/release/swell-build");
}
