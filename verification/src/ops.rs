//! The decisions of the `sbpm` commands: reading build metadata, choosing what an
//! install or an upgrade does, and recognising built archives.

use vstd::prelude::*;

use crate::db::{version_string, version_text};
use crate::num::{parse_u32, parse_u32_spec};
use crate::repo::{find_package, first_named, Package};
use crate::text::{
    chars_of, concat, split, split_chars, str_eq, string_from, string_views, strings_of,
    strip_prefix, trim, trim_char, trim_char_of, trim_chars, trim_end_char, trim_end_char_of,
    trim_start_char, trim_start_char_of, trimmed_lines, trimmed_lines_of, views,
};

verus! {

broadcast use vstd::string::group_string_axioms;

/// The version and release that metadata lines set: the last `version = ` line
/// (its value without surrounding `"`) and the last `release = ` line (its value
/// read as a `u32`, 0 when it is not one), or empty and 0 when there is none.
pub open spec fn metadata_version(ls: Seq<Seq<char>>) -> (Seq<char>, u32)
    decreases ls.len(),
{
    if ls.len() == 0 {
        (Seq::empty(), 0)
    } else {
        let prev = metadata_version(ls.drop_last());
        let l = ls.last();
        let v = if "version = "@.is_prefix_of(l) {
            trim_char(l.skip("version = "@.len() as int), '"')
        } else {
            prev.0
        };
        let r = if "release = "@.is_prefix_of(l) {
            match parse_u32_spec(l.skip("release = "@.len() as int)) {
                Some(x) => x,
                None => 0,
            }
        } else {
            prev.1
        };
        (v, r)
    }
}

/// The version and release that a package's `metadata.toml` states; an error when
/// it states no version.
pub fn parse_metadata_version(metadata: &str) -> (res: Result<(String, u32), String>)
    ensures
        ({
            let (v, r) = metadata_version(trimmed_lines(metadata@));
            match res {
                Ok((version, release)) => v.len() > 0 && version@ == v && release == r,
                Err(e) => v.len() == 0 && e@ == "version not found in metadata.toml"@,
            }
        }),
{
    let m = chars_of(metadata);
    let ls = trimmed_lines_of(m.as_slice());
    let vp = chars_of("version = ");
    let rp = chars_of("release = ");
    let ghost all = views(ls@);
    let mut version: Vec<char> = Vec::new();
    let mut release: u32 = 0;
    let mut i: usize = 0;
    while i < ls.len()
        invariant
            i <= ls@.len(),
            all == views(ls@),
            vp@ == "version = "@,
            rp@ == "release = "@,
            (version@, release) == metadata_version(all.take(i as int)),
        decreases ls@.len() - i,
    {
        let line = &ls[i];
        proof {
            let t = all.take(i + 1);
            assert(t.drop_last() =~= all.take(i as int));
            assert(t.last() == line@);
        }
        match strip_prefix(line.as_slice(), vp.as_slice()) {
            Some(val) => {
                version = trim_char_of(val.as_slice(), '"');
            },
            None => {},
        }
        match strip_prefix(line.as_slice(), rp.as_slice()) {
            Some(val) => {
                release = match parse_u32(val.as_slice()) {
                    Some(x) => x,
                    None => 0,
                };
            },
            None => {},
        }
        i = i + 1;
    }
    assert(all.take(all.len() as int) =~= all);
    if version.len() == 0 {
        return Err("version not found in metadata.toml".to_string());
    }
    Ok((string_from(version.as_slice()), release))
}


/// One dependency as a `depends = [...]` list spells it: the piece trimmed, then
/// without surrounding `"`.
pub open spec fn dependency_name(piece: Seq<char>) -> Seq<char> {
    trim_char(trim(piece), '"')
}

/// The dependencies that a `depends = ` value lists: none for `[]`; otherwise the
/// comma-separated pieces between the brackets, each a `dependency_name`, the empty
/// ones left out.
pub open spec fn depends_value(val: Seq<char>) -> Seq<Seq<char>> {
    if val == "[]"@ {
        Seq::empty()
    } else {
        let inner = trim_end_char(trim_start_char(val, '['), ']');
        split(inner, ',').map_values(|p: Seq<char>| dependency_name(p)).filter(
            |d: Seq<char>| d.len() > 0,
        )
    }
}

/// The dependencies that metadata lines state: those of the first `depends = `
/// line (its value trimmed), or none when there is no such line.
pub open spec fn metadata_depends(ls: Seq<Seq<char>>) -> Seq<Seq<char>>
    decreases ls.len(),
{
    if ls.len() == 0 {
        Seq::empty()
    } else if "depends = "@.is_prefix_of(ls[0]) {
        depends_value(trim(ls[0].skip("depends = "@.len() as int)))
    } else {
        metadata_depends(ls.drop_first())
    }
}

fn parse_depends_value(val: &[char]) -> (res: Vec<String>)
    ensures
        string_views(res@) == depends_value(val@),
{
    let empty = chars_of("[]");
    if crate::text::chars_eq(val, empty.as_slice()) {
        return Vec::new();
    }
    let a = trim_start_char_of(val, '[');
    let inner = trim_end_char_of(a.as_slice(), ']');
    let pieces = split_chars(inner.as_slice(), ',');
    let ghost ps = views(pieces@);
    let ghost names = ps.map_values(|p: Seq<char>| dependency_name(p));
    let ghost pred = |d: Seq<char>| d.len() > 0;
    let mut out: Vec<Vec<char>> = Vec::new();
    let mut i: usize = 0;
    while i < pieces.len()
        invariant
            i <= pieces@.len(),
            ps == views(pieces@),
            names == ps.map_values(|p: Seq<char>| dependency_name(p)),
            pred == (|d: Seq<char>| d.len() > 0),
            views(out@) =~= names.take(i as int).filter(pred),
        decreases pieces@.len() - i,
    {
        proof {
            assert(names.take(i + 1) =~= names.take(i as int).push(names[i as int]));
            names.take(i as int).lemma_filter_push(names[i as int], pred);
        }
        let t = trim_chars(pieces[i].as_slice());
        let d = trim_char_of(t.as_slice(), '"');
        if d.len() > 0 {
            let ghost prev = out@;
            out.push(d);
            assert(views(out@) =~= views(prev).push(names[i as int]));
        }
        i = i + 1;
    }
    assert(names.take(names.len() as int) =~= names);
    strings_of(&out)
}

/// The dependencies that a package's `metadata.toml` states.
pub fn parse_metadata_depends(metadata: &str) -> (res: Vec<String>)
    ensures
        string_views(res@) == metadata_depends(trimmed_lines(metadata@)),
{
    let m = chars_of(metadata);
    let ls = trimmed_lines_of(m.as_slice());
    let dp = chars_of("depends = ");
    let ghost all = views(ls@);
    let mut i: usize = 0;
    assert(all.skip(0) =~= all);
    while i < ls.len()
        invariant
            i <= ls@.len(),
            all == views(ls@),
            all == trimmed_lines(metadata@),
            dp@ == "depends = "@,
            metadata_depends(all) == metadata_depends(all.skip(i as int)),
        decreases ls@.len() - i,
    {
        proof {
            assert(all.skip(i as int)[0] == all[i as int]);
            assert(all.skip(i as int).drop_first() =~= all.skip(i + 1));
        }
        match strip_prefix(ls[i].as_slice(), dp.as_slice()) {
            Some(val) => {
                let v = trim_chars(val.as_slice());
                return parse_depends_value(v.as_slice());
            },
            None => {},
        }
        i = i + 1;
    }
    Vec::new()
}


/// What `upgrade_all` does with one installed package.
pub enum UpgradeAction<'a> {
    /// The package is frozen: it is skipped.
    SkipFrozen,
    /// The repository has no package of that name: it is skipped.
    NotInRepo,
    /// The installed `version-release` is the one the repository offers.
    UpToDate { available: String },
    /// The repository offers another `version-release`: `package` is installed
    /// in place of `current`.
    Upgrade { package: &'a Package, current: String, available: String },
}

/// `res` is what `plan_upgrade` decides for the installed package `name`, frozen
/// or not, whose recorded version is `installed` (`None`: no version file).
pub open spec fn upgrade_matches(
    packages: Seq<Package>,
    name: Seq<char>,
    frozen: bool,
    installed: Option<Seq<char>>,
    res: UpgradeAction,
) -> bool {
    if frozen {
        res is SkipFrozen
    } else if forall|i: int| 0 <= i < packages.len() ==> packages[i].name@ != name {
        res is NotInRepo
    } else {
        exists|i: int|
            {
                &&& #[trigger] first_named(packages, name, i)
                &&& {
                    let avail = version_text(packages[i].version@, packages[i].release);
                    let cur = match installed {
                        Some(v) => v,
                        None => Seq::empty(),
                    };
                    if cur == avail {
                        res matches UpgradeAction::UpToDate { available } && available@ == avail
                    } else {
                        res matches UpgradeAction::Upgrade { package, current, available }
                            && *package == packages[i] && current@ == cur && available@ == avail
                    }
                }
            }
    }
}

/// What to do with the installed package `name` when upgrading: skip it when it is
/// frozen or not in the repository, leave it when its recorded version (from
/// `get_installed_version`) is the `version-release` offered, upgrade it otherwise.
pub fn plan_upgrade<'a>(
    packages: &'a [Package],
    name: &str,
    frozen: bool,
    installed_version: Option<&str>,
) -> (res: UpgradeAction<'a>)
    ensures
        upgrade_matches(packages@, name@, frozen, crate::db::file_view(installed_version), res),
        frozen ==> res is SkipFrozen,
        !frozen ==> forall|i: int|
            #[trigger] first_named(packages@, name@, i) ==> {
                let avail = version_text(packages@[i].version@, packages@[i].release);
                &&& res is UpToDate <==> crate::db::file_view(installed_version) == Some(avail)
                &&& res is UpToDate || res is Upgrade
                &&& res matches UpgradeAction::UpToDate { available } ==> available@ == avail
                &&& res matches UpgradeAction::Upgrade { package, current, available } ==> *package
                    == packages@[i] && available@ == avail && current@ == match installed_version {
                    Some(v) => v@,
                    None => Seq::empty(),
                }
            },
{
    let res = plan_upgrade_decision(packages, name, frozen, installed_version);
    proof {
        if !frozen {
            assert forall|i: int| #[trigger] first_named(packages@, name@, i) implies {
                let avail = version_text(packages@[i].version@, packages@[i].release);
                &&& res is UpToDate <==> crate::db::file_view(installed_version) == Some(avail)
                &&& res is UpToDate || res is Upgrade
                &&& res matches UpgradeAction::UpToDate { available } ==> available@ == avail
                &&& res matches UpgradeAction::Upgrade { package, current, available } ==> *package
                    == packages@[i] && available@ == avail && current@ == match installed_version {
                    Some(v) => v@,
                    None => Seq::empty(),
                }
            } by {
                law_upgrade_compares_full_version(
                    packages@,
                    name@,
                    i,
                    crate::db::file_view(installed_version),
                    res,
                );
            }
        }
    }
    res
}

fn plan_upgrade_decision<'a>(
    packages: &'a [Package],
    name: &str,
    frozen: bool,
    installed_version: Option<&str>,
) -> (res: UpgradeAction<'a>)
    ensures
        upgrade_matches(packages@, name@, frozen, crate::db::file_view(installed_version), res),
{
    if frozen {
        return UpgradeAction::SkipFrozen;
    }
    match find_package(packages, name) {
        None => UpgradeAction::NotInRepo,
        Some(pkg) => {
            let current = match installed_version {
                Some(v) => v.to_string(),
                None => String::new(),
            };
            let available = version_string(pkg.version.as_str(), pkg.release);
            if str_eq(current.as_str(), available.as_str()) {
                UpgradeAction::UpToDate { available }
            } else {
                UpgradeAction::Upgrade { package: pkg, current, available }
            }
        },
    }
}

/// An installed package counts as up to date exactly when its recorded version
/// text is the whole `version-release` text that the repository offers for the
/// first package of that name; otherwise it is upgraded to that text, from the
/// recorded one (empty when there is none).
pub proof fn law_upgrade_compares_full_version(
    packages: Seq<Package>,
    name: Seq<char>,
    i: int,
    installed: Option<Seq<char>>,
    res: UpgradeAction,
)
    requires
        first_named(packages, name, i),
        upgrade_matches(packages, name, false, installed, res),
    ensures
        res is UpToDate <==> installed == Some(version_text(packages[i].version@, packages[i].release)),
        res is UpToDate || res is Upgrade,
        res matches UpgradeAction::UpToDate { available } ==> available@ == version_text(
            packages[i].version@,
            packages[i].release,
        ),
        res matches UpgradeAction::Upgrade { package, current, available } ==> *package
            == packages[i] && available@ == version_text(packages[i].version@, packages[i].release)
            && current@ == match installed {
            Some(v) => v,
            None => Seq::empty(),
        },
{
    let avail = version_text(packages[i].version@, packages[i].release);
    assert(avail.len() > 0 && avail[packages[i].version@.len() as int] == '-');
    assert(!(forall|k: int| 0 <= k < packages.len() ==> packages[k].name@ != name));
    let j = choose|j: int| #[trigger]
        first_named(packages, name, j) && {
            let avail = version_text(packages[j].version@, packages[j].release);
            let cur = match installed {
                Some(v) => v,
                None => Seq::empty(),
            };
            if cur == avail {
                res matches UpgradeAction::UpToDate { available } && available@ == avail
            } else {
                res matches UpgradeAction::Upgrade { package, current, available }
                    && *package == packages[j] && current@ == cur && available@ == avail
            }
        };
    if j < i {
        assert(packages[j].name@ != name);
    } else if i < j {
        assert(packages[i].name@ != name);
    }
}

/// A package recorded at another release of the version the repository offers
/// is upgraded: the release takes part in the comparison.
pub proof fn law_new_release_is_upgraded(
    packages: Seq<Package>,
    name: Seq<char>,
    i: int,
    recorded_release: u32,
    res: UpgradeAction,
)
    requires
        first_named(packages, name, i),
        recorded_release != packages[i].release,
        upgrade_matches(
            packages,
            name,
            false,
            Some(version_text(packages[i].version@, recorded_release)),
            res,
        ),
    ensures
        res is Upgrade,
{
    let v = packages[i].version@;
    let a = version_text(v, recorded_release);
    let b = version_text(v, packages[i].release);
    crate::num::lemma_decimal_value(recorded_release as nat);
    crate::num::lemma_decimal_value(packages[i].release as nat);
    if a == b {
        assert(a.skip(v.len() + 1int) =~= crate::num::decimal(recorded_release as nat));
        assert(b.skip(v.len() + 1int) =~= crate::num::decimal(packages[i].release as nat));
    }
    law_upgrade_compares_full_version(packages, name, i, Some(a), res);
}

/// An installed package whose recorded version was written by `record_install`
/// from the repository's own version and release is up to date: `upgrade_all`
/// leaves it alone (when its version has no white space at either end).
pub proof fn law_recorded_version_is_up_to_date(
    packages: Seq<Package>,
    name: Seq<char>,
    i: int,
    res: UpgradeAction,
)
    requires
        first_named(packages, name, i),
        crate::text::is_trimmed(packages[i].version@),
        upgrade_matches(
            packages,
            name,
            false,
            Some(trim(version_text(packages[i].version@, packages[i].release) + seq!['\n'])),
            res,
        ),
    ensures
        res is UpToDate,
{
    crate::db::law_version_reads_back(packages[i].version@, packages[i].release);
    let j = choose|j: int| #[trigger]
        first_named(packages, name, j) && {
            let avail = version_text(packages[j].version@, packages[j].release);
            let cur = trim(version_text(packages[i].version@, packages[i].release) + seq!['\n']);
            if cur == avail {
                res matches UpgradeAction::UpToDate { available } && available@ == avail
            } else {
                res matches UpgradeAction::Upgrade { package, current, available }
                    && *package == packages[j] && current@ == cur && available@ == avail
            }
        };
    if j < i {
        assert(packages[j].name@ != name);
    } else if i < j {
        assert(packages[i].name@ != name);
    }
}

/// Whether `file_name` is the archive that building `name` produced: a `.swell`
/// file whose name starts with `name-`.
pub fn is_built_package(file_name: &str, name: &str) -> (res: bool)
    ensures
        res == (crate::install::extension(file_name@) == Some("swell"@) && (name@
            + "-"@).is_prefix_of(file_name@)),
{
    let prefix = concat(name, "-");
    let f = chars_of(file_name);
    let p = chars_of(prefix.as_str());
    crate::install::is_swell_archive(file_name) && crate::text::has_prefix(
        f.as_slice(),
        p.as_slice(),
    )
}

/// Where to look for the `swell-build` tool, in order.
pub fn build_tool_candidates() -> (res: Vec<String>)
    ensures
        string_views(res@) == seq![
            "swell-build"@,
            "/usr/local/bin/swell-build"@,
            "/usr/bin/swell-build"@,
            "/usr/src/swell/swell-build/target/release/swell-build"@,
        ],
{
    let mut v: Vec<String> = Vec::new();
    v.push("swell-build".to_string());
    v.push("/usr/local/bin/swell-build".to_string());
    v.push("/usr/bin/swell-build".to_string());
    v.push("/usr/src/swell/swell-build/target/release/swell-build".to_string());
    assert(string_views(v@) =~= seq![
        "swell-build"@,
        "/usr/local/bin/swell-build"@,
        "/usr/bin/swell-build"@,
        "/usr/src/swell/swell-build/target/release/swell-build"@,
    ]);
    v
}

/// Whether a tool candidate names a path (it holds a `/`) to check for a file,
/// rather than a command to look up on `PATH`.
pub fn names_a_path(candidate: &str) -> (res: bool)
    ensures
        res == candidate@.contains('/'),
{
    let c = chars_of(candidate);
    let mut i: usize = 0;
    while i < c.len()
        invariant
            i <= c@.len(),
            c@ == candidate@,
            forall|j: int| 0 <= j < i ==> c@[j] != '/',
        decreases c@.len() - i,
    {
        if c[i] == '/' {
            assert(c@[i as int] == '/');
            return true;
        }
        i = i + 1;
    }
    false
}


/// A package being installed: its index in the package list, and the index of the
/// next of its dependencies to look at.
#[derive(Clone, Copy)]
pub struct InstallFrame {
    pub package: usize,
    pub next_dep: usize,
}

/// The state of installing a package with its dependencies, depth first: the
/// packages being installed, innermost last, and the name whose installed state
/// was last asked for, if an answer is awaited.
pub struct InstallWalk {
    pub stack: Vec<InstallFrame>,
    pub asking: Option<String>,
}

/// What the caller reports back.
pub enum InstallEvent {
    /// Whether the package asked about is installed.
    Installed(bool),
    /// The package to install has been installed and recorded.
    Finished,
}

/// What the caller does next.
pub enum InstallAction {
    /// Tell whether `name` is installed; `dependency` tells whether it is a
    /// dependency (to be announced as such when it is missing).
    Check { name: String, dependency: bool },
    /// The package asked for is installed already: the walk is over.
    AlreadyInstalled(String),
    /// No package of that name: the walk ends with this error.
    Missing(String),
    /// Install the package with this index (its dependencies are in place), then
    /// report `Finished`.
    Install(usize),
    /// The walk is over.
    Done,
}

/// Every frame names a package of the list and a dependency position within it.
pub open spec fn frames_ok(packages: Seq<Package>, stack: Seq<InstallFrame>) -> bool {
    forall|i: int|
        0 <= i < stack.len() ==> (#[trigger] stack[i]).package < packages.len()
            && stack[i].next_dep <= packages[stack[i].package as int].depends@.len()
}

/// `w` and `a` continue the walk from the frames `stack`: the innermost package's
/// next dependency is asked about, or, when none is left, the package is
/// installed.
pub open spec fn advanced(
    packages: Seq<Package>,
    stack: Seq<InstallFrame>,
    w: InstallWalk,
    a: InstallAction,
) -> bool {
    let top = stack.last();
    let deps = packages[top.package as int].depends@;
    if top.next_dep < deps.len() {
        &&& w.stack@ == stack.update(
            stack.len() - 1,
            InstallFrame { package: top.package, next_dep: (top.next_dep + 1) as usize },
        )
        &&& w.asking matches Some(n) && n@ == deps[top.next_dep as int]@
        &&& a matches InstallAction::Check { name, dependency } && name@ == deps[top.next_dep as int]@
            && dependency
    } else {
        &&& w.stack@ == stack
        &&& w.asking is None
        &&& a == InstallAction::Install(top.package)
    }
}

/// The walk asks about a package's dependencies one at a time, in order, and
/// installs the package only once every one of them has been asked about (and so
/// is installed, or has been installed first): continuing from a frame either asks
/// about the dependency at its position and moves the position on by exactly one,
/// or, when the position has passed the last dependency, installs the package.
pub proof fn law_install_after_all_dependencies(
    packages: Seq<Package>,
    stack: Seq<InstallFrame>,
    w: InstallWalk,
    a: InstallAction,
)
    requires
        frames_ok(packages, stack),
        stack.len() > 0,
        advanced(packages, stack, w, a),
    ensures
        a is Install || a is Check,
        a matches InstallAction::Install(i) ==> i == stack.last().package
            && stack.last().next_dep == packages[i as int].depends@.len() && w.stack@ == stack,
        a matches InstallAction::Check { name, dependency } ==> {
            let top = stack.last();
            let deps = packages[top.package as int].depends@;
            &&& dependency
            &&& top.next_dep < deps.len()
            &&& name@ == deps[top.next_dep as int]@
            &&& w.stack@.len() == stack.len()
            &&& w.stack@.drop_last() == stack.drop_last()
            &&& w.stack@.last().package == top.package
            &&& w.stack@.last().next_dep == top.next_dep + 1
        },
{
    assert(frames_ok(packages, stack) && stack[stack.len() - 1] == stack.last());
    let top = stack.last();
    if top.next_dep < packages[top.package as int].depends@.len() {
        assert(packages[top.package as int].depends.len() == packages[top.package as int].depends@.len());
        assert(w.stack@.drop_last() =~= stack.drop_last());
    }
}

fn find_index(packages: &[Package], name: &str) -> (res: Option<usize>)
    ensures
        res matches Some(i) ==> first_named(packages@, name@, i as int),
        res is None ==> forall|i: int| 0 <= i < packages@.len() ==> packages@[i].name@ != name@,
{
    let mut i: usize = 0;
    while i < packages.len()
        invariant
            i <= packages@.len(),
            forall|j: int| 0 <= j < i ==> packages@[j].name@ != name@,
        decreases packages@.len() - i,
    {
        if str_eq(packages[i].name.as_str(), name) {
            return Some(i);
        }
        i = i + 1;
    }
    None
}

impl InstallWalk {
    /// Starts installing `name`: first ask whether it is installed.
    pub fn start(name: &str) -> (res: (InstallWalk, InstallAction))
        ensures
            res.0.stack@.len() == 0,
            res.0.asking matches Some(n) && n@ == name@,
            res.1 matches InstallAction::Check { name: n, dependency } && n@ == name@ && !dependency,
    {
        let n = name.to_string();
        (
            InstallWalk { stack: Vec::new(), asking: Some(n.clone()) },
            InstallAction::Check { name: n, dependency: false },
        )
    }

    fn advance(&mut self, packages: &[Package]) -> (action: InstallAction)
        requires
            old(self).stack@.len() > 0,
            frames_ok(packages@, old(self).stack@),
        ensures
            frames_ok(packages@, final(self).stack@),
            advanced(packages@, old(self).stack@, *final(self), action),
            action matches InstallAction::Install(i) ==> {
                &&& final(self).stack@ == old(self).stack@
                &&& i == old(self).stack@.last().package
                &&& old(self).stack@.last().next_dep == packages@[i as int].depends@.len()
            },
            action matches InstallAction::Check { name, dependency } ==> {
                let top = old(self).stack@.last();
                &&& dependency
                &&& top.next_dep < packages@[top.package as int].depends@.len()
                &&& name@ == packages@[top.package as int].depends@[top.next_dep as int]@
                &&& final(self).asking matches Some(n) && n@ == name@
                &&& final(self).stack@.len() == old(self).stack@.len()
                &&& final(self).stack@.last().package == top.package
                &&& final(self).stack@.last().next_dep == top.next_dep + 1
            },
            action is Install || action is Check,
    {
        let last = self.stack.len() - 1;
        let top = self.stack[last];
        assert(frames_ok(packages@, self.stack@) && self.stack@[last as int] == top);
        let deps = &packages[top.package].depends;
        if top.next_dep < deps.len() {
            let name = deps[top.next_dep].clone();
            self.stack.set(last, InstallFrame { package: top.package, next_dep: top.next_dep + 1 });
            self.asking = Some(name.clone());
            InstallAction::Check { name, dependency: true }
        } else {
            self.asking = None;
            InstallAction::Install(top.package)
        }
    }

    /// The next action, given the answer to the last one. An event that does not
    /// answer the last action ends the walk (`Done`) and changes nothing.
    pub fn step(&mut self, packages: &[Package], event: InstallEvent) -> (action: InstallAction)
        requires
            frames_ok(packages@, old(self).stack@),
        ensures
            frames_ok(packages@, final(self).stack@),
            action matches InstallAction::Install(i) ==> {
                &&& final(self).stack@.len() > 0
                &&& final(self).stack@.last().package == i
                &&& i < packages@.len()
                &&& final(self).stack@.last().next_dep == packages@[i as int].depends@.len()
            },
            action matches InstallAction::Check { name, dependency } ==> {
                &&& final(self).asking matches Some(n) && n@ == name@
                &&& dependency
                &&& {
                    let top = final(self).stack@.last();
                    &&& final(self).stack@.len() > 0
                    &&& 0 < top.next_dep <= packages@[top.package as int].depends@.len()
                    &&& name@ == packages@[top.package as int].depends@[top.next_dep - 1]@
                }
            },
            ({
                let stack = old(self).stack@;
                match (old(self).asking, event) {
                    (Some(n), InstallEvent::Installed(true)) => if stack.len() == 0 {
                        &&& final(self).stack@ == stack
                        &&& final(self).asking is None
                        &&& action matches InstallAction::AlreadyInstalled(m) && m@ == n@
                    } else {
                        advanced(packages@, stack, *final(self), action)
                    },
                    (Some(n), InstallEvent::Installed(false)) => if forall|i: int|
                        0 <= i < packages@.len() ==> packages@[i].name@ != n@ {
                        &&& final(self).stack@ == stack
                        &&& final(self).asking is None
                        &&& action matches InstallAction::Missing(e) && e@ == "package not found: "@
                            + n@
                    } else {
                        exists|i: int|
                            #[trigger] first_named(packages@, n@, i) && advanced(
                                packages@,
                                stack.push(InstallFrame { package: i as usize, next_dep: 0 }),
                                *final(self),
                                action,
                            )
                    },
                    (None, InstallEvent::Finished) => if stack.len() == 0 {
                        &&& final(self).stack@ == stack
                        &&& final(self).asking is None
                        &&& action is Done
                    } else if stack.len() == 1 {
                        &&& final(self).stack@ == stack.drop_last()
                        &&& final(self).asking is None
                        &&& action is Done
                    } else {
                        advanced(packages@, stack.drop_last(), *final(self), action)
                    },
                    _ => {
                        &&& final(self).stack@ == stack
                        &&& final(self).asking == old(self).asking
                        &&& action is Done
                    },
                }
            }),
    {
        match event {
            InstallEvent::Installed(installed) => {
                let n = match &self.asking {
                    Some(n) => n.clone(),
                    None => {
                        return InstallAction::Done;
                    },
                };
                self.asking = None;
                if installed {
                    if self.stack.len() == 0 {
                        return InstallAction::AlreadyInstalled(n);
                    }
                    self.advance(packages)
                } else {
                    match find_index(packages, n.as_str()) {
                        None => InstallAction::Missing(concat("package not found: ", n.as_str())),
                        Some(i) => {
                            let ghost before = self.stack@;
                            self.stack.push(InstallFrame { package: i, next_dep: 0 });
                            proof {
                                assert(frames_ok(packages@, self.stack@)) by {
                                    assert forall|k: int| 0 <= k < self.stack@.len() implies (
                                    #[trigger] self.stack@[k]).package < packages@.len()
                                        && self.stack@[k].next_dep
                                        <= packages@[self.stack@[k].package as int].depends@.len() by {
                                        if k < before.len() {
                                            assert(self.stack@[k] == before[k]);
                                        }
                                    }
                                }
                            }
                            let action = self.advance(packages);
                            assert(first_named(packages@, n@, i as int));
                            action
                        },
                    }
                }
            },
            InstallEvent::Finished => {
                if self.asking.is_some() || self.stack.len() == 0 {
                    return InstallAction::Done;
                }
                let ghost before = self.stack@;
                self.stack.pop();
                proof {
                    assert(self.stack@ == before.drop_last());
                    assert forall|k: int| 0 <= k < self.stack@.len() implies (
                    #[trigger] self.stack@[k]).package < packages@.len() && self.stack@[k].next_dep
                        <= packages@[self.stack@[k].package as int].depends@.len() by {
                        assert(self.stack@[k] == before[k]);
                    }
                }
                if self.stack.len() == 0 {
                    return InstallAction::Done;
                }
                self.advance(packages)
            },
        }
    }
}

/// The message when no `swell-build` tool is found.
pub open spec fn no_build_tool_message() -> Seq<char> {
    "swell-build not found. Install it from https://github.com/SwellOS/swell-build or set up the build workspace at /usr/src/swell/"@
}

/// The candidate of the first of the build-tool candidates, in order, that is
/// available, given whether each one is (`available[i]` for candidate `i`; those
/// past the end of `available` are not); an error when none is.
pub fn find_swell_build(available: &[bool]) -> (res: Result<String, String>)
    ensures
        ({
            let c = seq![
                "swell-build"@,
                "/usr/local/bin/swell-build"@,
                "/usr/bin/swell-build"@,
                "/usr/src/swell/swell-build/target/release/swell-build"@,
            ];
            match res {
                Ok(tool) => exists|i: int|
                    0 <= i < 4 && i < available@.len() && #[trigger] available@[i] && (forall|j: int|
                        0 <= j < i ==> !available@[j]) && tool@ == c[i],
                Err(e) => (forall|i: int| 0 <= i < 4 && i < available@.len() ==> !available@[i])
                    && e@ == no_build_tool_message(),
            }
        }),
{
    let candidates = build_tool_candidates();
    assert(string_views(candidates@).len() == 4);
    let mut i: usize = 0;
    while i < 4 && i < available.len()
        invariant
            i <= 4,
            candidates@.len() == 4,
            string_views(candidates@) == seq![
                "swell-build"@,
                "/usr/local/bin/swell-build"@,
                "/usr/bin/swell-build"@,
                "/usr/src/swell/swell-build/target/release/swell-build"@,
            ],
            forall|j: int| 0 <= j < i && j < available@.len() ==> !available@[j],
        decreases 4 - i,
    {
        if available[i] {
            let tool = candidates[i].clone();
            assert(string_views(candidates@)[i as int] == candidates@[i as int]@);
            return Ok(tool);
        }
        i = i + 1;
    }
    Err("swell-build not found. Install it from https://github.com/SwellOS/swell-build or set up the build workspace at /usr/src/swell/".to_string())
}

} // verus!
