//! The record of installed and frozen packages, kept as text files under
//! `/var/lib/sbpm`. The functions here compute what those files say and what is
//! written back; reading and writing the files is left to the caller.

use vstd::prelude::*;

use crate::num::{decimal, decimal_of};
use crate::order::{sort_lines, sort_unique_lines};
use crate::text::{
    chars_eq, chars_of, content_lines, content_lines_of, join, join_chars, join_path,
    lemma_lines_of_joined, lemma_lines_of_terminated, lemma_trimmed_fixed,
    lemma_trimmed_lines_facts, path_join, plain_lines, single_line, sorted, strictly_sorted,
    string_from, string_views, strip_cr, trim, trim_chars, trimmed_lines, trimmed_lines_of,
    is_trimmed, is_ws, views,
};

verus! {

broadcast use vstd::string::group_string_axioms;

/// The view of an optional file content (`None`: the file is absent).
pub open spec fn file_view(f: Option<&str>) -> Option<Seq<char>> {
    match f {
        Some(c) => Some(c@),
        None => None,
    }
}

/// The directory that holds one subdirectory per installed package.
pub fn manifest_dir() -> (res: String)
    ensures
        res@ == "/var/lib/sbpm/installed"@,
{
    "/var/lib/sbpm/installed".to_string()
}

/// The file that lists the frozen packages.
pub fn freeze_path() -> (res: String)
    ensures
        res@ == "/var/lib/sbpm/freeze"@,
{
    "/var/lib/sbpm/freeze".to_string()
}

/// The cached copy of the repository index.
pub fn repo_cache_path() -> (res: String)
    ensures
        res@ == "/var/lib/sbpm/repo.db"@,
{
    "/var/lib/sbpm/repo.db".to_string()
}

/// The directory that records the installed package `name`; its existence is what
/// `is_installed` checks.
pub fn package_record_dir(name: &str) -> (res: String)
    ensures
        res@ == path_join("/var/lib/sbpm/installed"@, name@),
{
    let dir = manifest_dir();
    join_path(dir.as_str(), name)
}

/// The file that lists the files that package `name` installed.
pub fn manifest_file(name: &str) -> (res: String)
    ensures
        res@ == path_join(path_join("/var/lib/sbpm/installed"@, name@), "manifest"@),
{
    let dir = package_record_dir(name);
    join_path(dir.as_str(), "manifest")
}

/// The file that holds the installed version of package `name`.
pub fn version_file(name: &str) -> (res: String)
    ensures
        res@ == path_join(path_join("/var/lib/sbpm/installed"@, name@), "version"@),
{
    let dir = package_record_dir(name);
    join_path(dir.as_str(), "version")
}

/// The names the freeze file lists: its trimmed lines, empty ones included.
pub open spec fn frozen_set(f: Option<Seq<char>>) -> Set<Seq<char>> {
    match f {
        Some(c) => trimmed_lines(c).to_set(),
        None => Set::empty(),
    }
}

/// Whether the freeze file `f` holds a line that trims to `name`.
pub open spec fn frozen_in(f: Option<Seq<char>>, name: Seq<char>) -> bool {
    match f {
        Some(c) => trimmed_lines(c).contains(name),
        None => false,
    }
}

/// A list written one item per line, each line ending in a line break.
pub open spec fn list_file(l: Seq<Seq<char>>) -> Seq<char> {
    join(l, seq!['\n']) + seq!['\n']
}

/// `out` is what `freeze_package` writes: the names of `f` and `name`, each once,
/// in `str` order, one per line.
pub open spec fn freeze_result(f: Option<Seq<char>>, name: Seq<char>, out: Seq<char>) -> bool {
    exists|l: Seq<Seq<char>>|
        strictly_sorted(l) && l.to_set() == frozen_set(f).insert(name) && out == list_file(l)
}

/// What becomes of a file.
pub enum FileUpdate {
    /// Leave the file as it is.
    Keep,
    /// Delete the file.
    Remove,
    /// Write this content to the file.
    Write(String),
}

/// The names that stay frozen when `name` is unfrozen: the non-empty trimmed lines
/// of `c` other than `name`, in file order.
pub open spec fn kept_after_unfreeze(c: Seq<char>, name: Seq<char>) -> Seq<Seq<char>> {
    trimmed_lines(c).filter(stays_frozen(name))
}

/// A freeze-file line that survives unfreezing `name`: not empty and not `name`.
pub open spec fn stays_frozen(name: Seq<char>) -> spec_fn(Seq<char>) -> bool {
    |l: Seq<char>| l.len() > 0 && l != name
}

/// `u` is what `unfreeze_package` does to the freeze file `f`.
pub open spec fn unfreeze_result(f: Option<Seq<char>>, name: Seq<char>, u: FileUpdate) -> bool {
    match f {
        None => u is Keep,
        Some(c) => {
            let kept = kept_after_unfreeze(c, name);
            if kept.len() == 0 {
                u is Remove
            } else {
                u matches FileUpdate::Write(s) && exists|l: Seq<Seq<char>>|
                    sorted(l) && l.to_multiset() == kept.to_multiset() && s@ == list_file(l)
            }
        },
    }
}

/// The freeze file's content after `u` is applied to `f`.
pub open spec fn after_update(f: Option<Seq<char>>, u: FileUpdate) -> Option<Seq<char>> {
    match u {
        FileUpdate::Keep => f,
        FileUpdate::Remove => None,
        FileUpdate::Write(s) => Some(s@),
    }
}

/// Whether `name` is frozen, given the freeze file's content (`None`: no file).
pub fn is_frozen(freeze_file: Option<&str>, name: &str) -> (res: bool)
    ensures
        res == frozen_in(file_view(freeze_file), name@),
{
    match freeze_file {
        None => false,
        Some(c) => {
            let cs = chars_of(c);
            let ls = trimmed_lines_of(cs.as_slice());
            let n = chars_of(name);
            let ghost all = views(ls@);
            let mut i: usize = 0;
            while i < ls.len()
                invariant
                    i <= ls@.len(),
                    all == views(ls@),
                    all == trimmed_lines(c@),
                    n@ == name@,
                    file_view(freeze_file) == Some(c@),
                    forall|j: int| 0 <= j < i ==> all[j] != n@,
                decreases ls@.len() - i,
            {
                if chars_eq(ls[i].as_slice(), n.as_slice()) {
                    assert(all[i as int] == n@);
                    assert(all.contains(name@));
                    return true;
                }
                i = i + 1;
            }
            false
        },
    }
}

/// The new content of the freeze file after freezing `name`, given its content
/// now (`None`: no file).
pub fn freeze_package(freeze_file: Option<&str>, name: &str) -> (res: String)
    ensures
        freeze_result(file_view(freeze_file), name@, res@),
{
    let mut names: Vec<Vec<char>> = match freeze_file {
        Some(c) => {
            let cs = chars_of(c);
            trimmed_lines_of(cs.as_slice())
        },
        None => Vec::new(),
    };
    let ghost before = views(names@);
    let n = chars_of(name);
    names.push(n);
    proof {
        assert(views(names@) =~= before.push(name@));
        assert(views(names@).to_set() =~= frozen_set(file_view(freeze_file)).insert(name@)) by {
            assert forall|x: Seq<char>| #[trigger] views(names@).to_set().contains(x) <==> frozen_set(
                file_view(freeze_file),
            ).insert(name@).contains(x) by {
                if views(names@).contains(x) {
                    let k = choose|k: int| 0 <= k < views(names@).len() && views(names@)[k] == x;
                    if k < before.len() {
                        assert(before[k] == x);
                    }
                }
                if before.contains(x) {
                    let k = choose|k: int| 0 <= k < before.len() && before[k] == x;
                    assert(views(names@)[k] == x);
                }
                if x == name@ {
                    assert(views(names@)[before.len() as int] == x);
                }
            }
        }
    }
    let list = sort_unique_lines(names);
    let mut out = join_chars(list.as_slice(), '\n');
    out.push('\n');
    let res = string_from(out.as_slice());
    assert(res@ == list_file(views(list@)));
    res
}

/// What unfreezing `name` does to the freeze file, given its content now (`None`:
/// no file).
pub fn unfreeze_package(freeze_file: Option<&str>, name: &str) -> (res: FileUpdate)
    ensures
        unfreeze_result(file_view(freeze_file), name@, res),
{
    let c = match freeze_file {
        None => {
            return FileUpdate::Keep;
        },
        Some(c) => c,
    };
    let cs = chars_of(c);
    let ls = trimmed_lines_of(cs.as_slice());
    let n = chars_of(name);
    let ghost all = views(ls@);
    let ghost pred = stays_frozen(name@);
    let mut kept: Vec<Vec<char>> = Vec::new();
    let mut i: usize = 0;
    while i < ls.len()
        invariant
            i <= ls@.len(),
            all == views(ls@),
            n@ == name@,
            pred == stays_frozen(name@),
            views(kept@) =~= all.take(i as int).filter(pred),
        decreases ls@.len() - i,
    {
        proof {
            assert(all.take(i + 1) =~= all.take(i as int).push(all[i as int]));
            all.take(i as int).lemma_filter_push(all[i as int], pred);
        }
        if ls[i].len() > 0 && !chars_eq(ls[i].as_slice(), n.as_slice()) {
            let x = ls[i].clone();
            let ghost prev = kept@;
            kept.push(x);
            assert(views(kept@) =~= views(prev).push(x@));
        }
        i = i + 1;
    }
    assert(all.take(all.len() as int) =~= all);
    assert(views(kept@) == kept_after_unfreeze(c@, name@));
    if kept.len() == 0 {
        return FileUpdate::Remove;
    }
    let list = sort_lines(kept);
    let mut out = join_chars(list.as_slice(), '\n');
    out.push('\n');
    let res = string_from(out.as_slice());
    assert(res@ == list_file(views(list@)));
    FileUpdate::Write(res)
}

/// The non-empty trimmed lines of an optional file (`None`: no file).
pub open spec fn listed(f: Option<Seq<char>>) -> Seq<Seq<char>> {
    match f {
        Some(c) => content_lines(c),
        None => Seq::empty(),
    }
}

/// The frozen package names, in file order, given the freeze file's content.
pub fn all_frozen(freeze_file: Option<&str>) -> (res: Vec<String>)
    ensures
        string_views(res@) == listed(file_view(freeze_file)),
{
    match freeze_file {
        Some(c) => content_lines_of(c),
        None => Vec::new(),
    }
}

/// The files that a package installed, given its manifest's content.
pub fn get_installed_files(manifest: Option<&str>) -> (res: Vec<String>)
    ensures
        string_views(res@) == listed(file_view(manifest)),
{
    match manifest {
        Some(c) => content_lines_of(c),
        None => Vec::new(),
    }
}

/// The installed version of a package, given its version file's content.
pub fn get_installed_version(version_file: Option<&str>) -> (res: Option<String>)
    ensures
        res is Some <==> version_file is Some,
        res matches Some(v) ==> v@ == trim(version_file.unwrap()@),
{
    match version_file {
        Some(c) => {
            let cs = chars_of(c);
            let t = trim_chars(cs.as_slice());
            Some(string_from(t.as_slice()))
        },
        None => None,
    }
}

/// The `version-release` text of a package version.
pub open spec fn version_text(version: Seq<char>, release: u32) -> Seq<char> {
    version + seq!['-'] + decimal(release as nat)
}

/// The `version-release` text of a package version.
pub fn version_string(version: &str, release: u32) -> (res: String)
    ensures
        res@ == version_text(version@, release),
{
    let mut v = chars_of(version);
    let ghost start = v@;
    v.push('-');
    let d = decimal_of(release);
    let ghost mid = v@;
    let mut j: usize = 0;
    while j < d.len()
        invariant
            j <= d@.len(),
            v@ == mid + d@.take(j as int),
        decreases d@.len() - j,
    {
        v.push(d[j]);
        j = j + 1;
        assert(v@ =~= mid + d@.take(j as int));
    }
    assert(d@.take(j as int) =~= d@);
    assert(v@ =~= version_text(version@, release));
    string_from(v.as_slice())
}

/// The two files that record an installed package.
pub struct InstallRecord {
    /// The manifest: the installed files, one per line.
    pub manifest: String,
    /// The version file: `version-release` and a line break.
    pub version: String,
}

/// The record of an install of `version`-`release` that put `files` in place.
pub fn record_install(version: &str, release: u32, files: &[String]) -> (res: InstallRecord)
    ensures
        res.manifest@ == join(string_views(files@), seq!['\n']),
        res.version@ == version_text(version@, release) + seq!['\n'],
{
    let mut parts: Vec<Vec<char>> = Vec::new();
    let mut i: usize = 0;
    while i < files.len()
        invariant
            i <= files@.len(),
            views(parts@) =~= string_views(files@.take(i as int)),
        decreases files@.len() - i,
    {
        let f = chars_of(files[i].as_str());
        parts.push(f);
        assert(string_views(files@.take(i + 1)) =~= string_views(files@.take(i as int)).push(
            files@[i as int]@,
        ));
        i = i + 1;
    }
    assert(files@.take(files@.len() as int) =~= files@);
    let m = join_chars(parts.as_slice(), '\n');
    let vs = version_string(version, release);
    let mut vc = chars_of(vs.as_str());
    vc.push('\n');
    InstallRecord { manifest: string_from(m.as_slice()), version: string_from(vc.as_slice()) }
}


proof fn lemma_trimmed_is_plain(x: Seq<char>)
    requires
        is_trimmed(x),
    ensures
        strip_cr(x) == x,
{
    if x.len() > 0 && x.last() == '\r' {
        assert(is_ws(x.last()));
    }
}

/// Reading back a list file whose entries are trimmed single lines gives the entries.
proof fn lemma_read_list_file(l: Seq<Seq<char>>)
    requires
        l.len() > 0,
        forall|i: int| 0 <= i < l.len() ==> is_trimmed(#[trigger] l[i]) && single_line(l[i]),
    ensures
        trimmed_lines(list_file(l)) == l,
{
    assert(plain_lines(l)) by {
        assert forall|i: int| 0 <= i < l.len() implies single_line(#[trigger] l[i]) && strip_cr(
            l[i],
        ) == l[i] by {
            lemma_trimmed_is_plain(l[i]);
        }
    }
    lemma_lines_of_terminated(l);
    assert forall|i: int| 0 <= i < l.len() implies trim(#[trigger] l[i]) == l[i] by {
        lemma_trimmed_fixed(l[i]);
    }
    assert(trimmed_lines(list_file(l)) =~= l);
}

/// The list that a freeze writes holds trimmed single lines, and reads back as
/// itself.
proof fn lemma_frozen_list(f: Option<Seq<char>>, name: Seq<char>, l: Seq<Seq<char>>)
    requires
        l.to_set() == frozen_set(f).insert(name),
        single_line(name),
        is_trimmed(name),
    ensures
        l.len() > 0,
        trimmed_lines(list_file(l)) == l,
{
    assert(l.to_set().contains(name));
    assert(l.len() > 0);
    assert forall|i: int| 0 <= i < l.len() implies is_trimmed(#[trigger] l[i]) && single_line(
        l[i],
    ) by {
        assert(l.to_set().contains(l[i]));
        if l[i] != name {
            let c = f.unwrap();
            lemma_trimmed_lines_facts(c);
            let k = choose|k: int| 0 <= k < trimmed_lines(c).len() && trimmed_lines(c)[k] == l[i];
        }
    }
    lemma_read_list_file(l);
}

/// Freezing a package marks it frozen and leaves every other name as it was: after
/// `freeze_package(f, name)` is written, exactly `name` and the names frozen
/// before are frozen. (A name with a line break, or with white space at either
/// end, is written as is and not found again.)
pub proof fn law_freeze_marks_frozen(
    f: Option<Seq<char>>,
    name: Seq<char>,
    out: Seq<char>,
    other: Seq<char>,
)
    requires
        freeze_result(f, name, out),
        single_line(name),
        is_trimmed(name),
    ensures
        frozen_in(Some(out), name),
        frozen_in(Some(out), other) == (frozen_in(f, other) || other == name),
{
    let l = choose|l: Seq<Seq<char>>|
        strictly_sorted(l) && l.to_set() == frozen_set(f).insert(name) && out == list_file(l);
    lemma_frozen_list(f, name, l);
    assert(l.to_set().contains(other) == l.contains(other));
    assert(l.to_set().contains(name));
    match f {
        Some(c) => {
            assert(trimmed_lines(c).to_set().contains(other) == trimmed_lines(c).contains(other));
        },
        None => {},
    }
}

/// Freezing a package twice writes the same file as freezing it once.
pub proof fn law_freeze_idempotent(
    f: Option<Seq<char>>,
    name: Seq<char>,
    once: Seq<char>,
    twice: Seq<char>,
)
    requires
        freeze_result(f, name, once),
        freeze_result(Some(once), name, twice),
        single_line(name),
        is_trimmed(name),
    ensures
        twice == once,
{
    let l1 = choose|l: Seq<Seq<char>>|
        strictly_sorted(l) && l.to_set() == frozen_set(f).insert(name) && once == list_file(l);
    lemma_frozen_list(f, name, l1);
    let l2 = choose|l: Seq<Seq<char>>|
        strictly_sorted(l) && l.to_set() == frozen_set(Some(once)).insert(name) && twice
            == list_file(l);
    assert(frozen_set(Some(once)) == l1.to_set());
    assert(l1.to_set().contains(name));
    assert(l2.to_set() =~= l1.to_set());
    crate::order::lemma_strictly_sorted_unique(l1, l2);
}

/// Unfreezing a package leaves it not frozen, and leaves every other non-empty name
/// as it was.
pub proof fn law_unfreeze_clears(
    f: Option<Seq<char>>,
    name: Seq<char>,
    u: FileUpdate,
    other: Seq<char>,
)
    requires
        unfreeze_result(f, name, u),
    ensures
        !frozen_in(after_update(f, u), name),
        other.len() > 0 && other != name ==> frozen_in(after_update(f, u), other) == frozen_in(
            f,
            other,
        ),
{
    broadcast use vstd::seq_lib::group_filter_ensures, vstd::seq_lib::group_to_multiset_ensures;

    match f {
        None => {},
        Some(c) => {
            let kept = kept_after_unfreeze(c, name);
            let pred = stays_frozen(name);
            if kept.len() == 0 {
                if other.len() > 0 && other != name && trimmed_lines(c).contains(other) {
                    let k = choose|k: int| 0 <= k < trimmed_lines(c).len() && trimmed_lines(c)[k] == other;
                    trimmed_lines(c).lemma_filter_contains(pred, k);
                }
            } else {
                let s = u->Write_0;
                let l = choose|l: Seq<Seq<char>>|
                    sorted(l) && l.to_multiset() == kept.to_multiset() && s@ == list_file(l);
                lemma_trimmed_lines_facts(c);
                assert forall|x: Seq<char>| #[trigger] l.contains(x) <==> kept.contains(x) by {
                    assert(l.contains(x) <==> l.to_multiset().count(x) > 0);
                    assert(kept.contains(x) <==> kept.to_multiset().count(x) > 0);
                }
                assert forall|x: Seq<char>| #[trigger] kept.contains(x) implies trimmed_lines(c).contains(x)
                    && pred(x) by {
                    {
                        trimmed_lines(c).lemma_filter_contains_rev(pred, x);
                        let k = choose|k: int| 0 <= k < kept.len() && kept[k] == x;
                    }
                }
                assert(l.len() > 0) by {
                    assert(kept.contains(kept[0]));
                    assert(l.contains(kept[0]));
                }
                assert forall|i: int| 0 <= i < l.len() implies is_trimmed(#[trigger] l[i])
                    && single_line(l[i]) by {
                    assert(l.contains(l[i]));
                    let k = choose|k: int|
                        0 <= k < trimmed_lines(c).len() && trimmed_lines(c)[k] == l[i];
                }
                lemma_read_list_file(l);
                if other.len() > 0 && other != name && trimmed_lines(c).contains(other) {
                    let k = choose|k: int| 0 <= k < trimmed_lines(c).len() && trimmed_lines(c)[k] == other;
                    trimmed_lines(c).lemma_filter_contains(pred, k);
                }
            }
        },
    }
}

/// The manifest that `record_install` writes reads back, through
/// `get_installed_files`, as the same files, when each file name is a non-empty
/// trimmed single line (as the installer's `/`-rooted paths are).
pub proof fn law_manifest_reads_back(files: Seq<Seq<char>>, manifest: Seq<char>)
    requires
        manifest == join(files, seq!['\n']),
        forall|i: int|
            0 <= i < files.len() ==> #[trigger] files[i].len() > 0 && is_trimmed(files[i])
                && single_line(files[i]),
    ensures
        listed(Some(manifest)) == files,
{
    assert(plain_lines(files)) by {
        assert forall|i: int| 0 <= i < files.len() implies single_line(#[trigger] files[i])
            && strip_cr(files[i]) == files[i] by {
            lemma_trimmed_is_plain(files[i]);
        }
    }
    lemma_lines_of_joined(files);
    assert forall|i: int| 0 <= i < files.len() implies trim(#[trigger] files[i]) == files[i] by {
        lemma_trimmed_fixed(files[i]);
    }
    assert(trimmed_lines(manifest) =~= files);
    let pred = |l: Seq<char>| crate::text::nonempty(l);
    assert(files.filter(pred) == files) by {
        lemma_filter_all(files, pred);
    }
}

proof fn lemma_filter_all<A>(s: Seq<A>, p: spec_fn(A) -> bool)
    requires
        forall|i: int| 0 <= i < s.len() ==> p(#[trigger] s[i]),
    ensures
        s.filter(p) == s,
    decreases s.len(),
{
    reveal(Seq::filter);
    if s.len() > 0 {
        lemma_filter_all(s.drop_last(), p);
        assert(s.drop_last().push(s.last()) =~= s);
    }
}

/// The version that `record_install` writes reads back, through
/// `get_installed_version`, as `version-release`, when `version` has no white space
/// at either end.
pub proof fn law_version_reads_back(version: Seq<char>, release: u32)
    requires
        is_trimmed(version),
    ensures
        trim(version_text(version, release) + seq!['\n']) == version_text(version, release),
{
    let t = version_text(version, release);
    let d = decimal(release as nat);
    lemma_decimal_not_ws(release as nat);
    assert(t.len() > 0);
    assert(!is_ws(t.last())) by {
        assert(t.last() == d.last());
    }
    assert(!is_ws(t[0])) by {
        if version.len() == 0 {
            assert(t[0] == '-');
        } else {
            assert(t[0] == version[0]);
        }
    }
    let s = t + seq!['\n'];
    crate::text::lemma_trim_strips(s, t.len() as int);
}

proof fn lemma_decimal_not_ws(n: nat)
    ensures
        decimal(n).len() > 0,
        !is_ws(decimal(n).last()),
    decreases n,
{
    if n >= 10 {
        lemma_decimal_not_ws(n / 10);
    }
}


/// The trimmed lines of what a freeze writes: the names frozen before and the new
/// one, each once, in `str` order.
proof fn lemma_freeze_step(f: Option<Seq<char>>, name: Seq<char>, out: Seq<char>)
    requires
        freeze_result(f, name, out),
        single_line(name),
        is_trimmed(name),
    ensures
        strictly_sorted(trimmed_lines(out)),
        trimmed_lines(out).to_set() == frozen_set(f).insert(name),
{
    let l = choose|l: Seq<Seq<char>>|
        strictly_sorted(l) && l.to_set() == frozen_set(f).insert(name) && out == list_file(l);
    lemma_frozen_list(f, name, l);
}

/// Unfreezing a name just frozen undoes the freeze: the name is not frozen, and the
/// frozen list is the one before, in `str` order without repeats (and without the
/// empty lines that a freeze file may hold).
pub proof fn law_unfreeze_undoes_freeze(
    f: Option<Seq<char>>,
    name: Seq<char>,
    out: Seq<char>,
    u: FileUpdate,
)
    requires
        freeze_result(f, name, out),
        unfreeze_result(Some(out), name, u),
        name.len() > 0,
        single_line(name),
        is_trimmed(name),
        !frozen_in(f, name),
    ensures
        !frozen_in(after_update(Some(out), u), name),
        strictly_sorted(listed(after_update(Some(out), u))),
        listed(after_update(Some(out), u)).to_set() == listed(f).to_set(),
{
    broadcast use vstd::seq_lib::group_filter_ensures;

    law_unfreeze_clears(Some(out), name, u, name);
    lemma_freeze_step(f, name, out);
    let l1 = trimmed_lines(out);
    let pred = stays_frozen(name);
    let kept = l1.filter(pred);
    crate::order::lemma_filter_strictly_sorted(l1, pred);
    let nonempty = |l: Seq<char>| crate::text::nonempty(l);
    assert forall|x: Seq<char>| #[trigger] kept.contains(x) <==> listed(f).contains(x) by {
        if kept.contains(x) {
            l1.lemma_filter_contains_rev(pred, x);
            let k = choose|k: int| 0 <= k < kept.len() && kept[k] == x;
            assert(pred(x));
            assert(l1.to_set().contains(x));
            let c = f.unwrap();
            assert(trimmed_lines(c).to_set().contains(x));
            let j = choose|j: int| 0 <= j < trimmed_lines(c).len() && trimmed_lines(c)[j] == x;
            trimmed_lines(c).lemma_filter_contains(nonempty, j);
        }
        if listed(f).contains(x) {
            let c = f.unwrap();
            trimmed_lines(c).lemma_filter_contains_rev(nonempty, x);
            let k = choose|k: int| 0 <= k < listed(f).len() && listed(f)[k] == x;
            assert(nonempty(x));
            assert(frozen_set(f).contains(x));
            assert(l1.to_set().contains(x));
            let j = choose|j: int| 0 <= j < l1.len() && l1[j] == x;
            l1.lemma_filter_contains(pred, j);
        }
    }
    assert(kept.to_set() =~= listed(f).to_set());
    if kept.len() > 0 {
        let w = u->Write_0;
        let l = choose|l: Seq<Seq<char>>|
            sorted(l) && l.to_multiset() == kept.to_multiset() && w@ == list_file(l);
        crate::order::lemma_sorted_permutation_of_strict(l, kept);
        lemma_trimmed_lines_facts(out);
        assert forall|i: int| 0 <= i < kept.len() implies is_trimmed(#[trigger] kept[i])
            && single_line(kept[i]) && kept[i].len() > 0 by {
            assert(kept.contains(kept[i]));
            l1.lemma_filter_contains_rev(pred, kept[i]);
            let j = choose|j: int| 0 <= j < l1.len() && l1[j] == kept[i];
        }
        lemma_read_list_file(kept);
        lemma_filter_all(kept, nonempty);
    } else {
        assert(listed(f).to_set() =~= Set::empty()) by {
            assert forall|x: Seq<char>| !listed(f).to_set().contains(x) by {
                if listed(f).contains(x) {
                    assert(kept.contains(x));
                }
            }
        }
        assert(listed(None) =~= Seq::<Seq<char>>::empty());
        assert(Seq::<Seq<char>>::empty().to_set() =~= Set::empty());
    }
}

proof fn lemma_freeze_series(names: Seq<Seq<char>>, outs: Seq<Seq<char>>, n: int)
    requires
        names.len() == outs.len(),
        1 <= n <= outs.len(),
        forall|i: int|
            0 <= i < names.len() ==> #[trigger] single_line(names[i]) && is_trimmed(names[i]),
        forall|i: int|
            0 <= i < outs.len() ==> freeze_result(
                if i == 0 {
                    None
                } else {
                    Some(outs[i - 1])
                },
                names[i],
                #[trigger] outs[i],
            ),
    ensures
        strictly_sorted(trimmed_lines(outs[n - 1])),
        trimmed_lines(outs[n - 1]).to_set() == names.take(n).to_set(),
    decreases n,
{
    assert(freeze_result(
        if n - 1 == 0 {
            None
        } else {
            Some(outs[n - 2])
        },
        names[n - 1],
        outs[n - 1],
    ));
    assert(single_line(names[n - 1]) && is_trimmed(names[n - 1]));
    if n == 1 {
        lemma_freeze_step(None, names[0], outs[0]);
        crate::order::lemma_push_to_set(names.take(0), names[0]);
        assert(names.take(1) =~= names.take(0).push(names[0]));
        assert(names.take(0).to_set() =~= Set::empty());
    } else {
        lemma_freeze_series(names, outs, n - 1);
        lemma_freeze_step(Some(outs[n - 2]), names[n - 1], outs[n - 1]);
        crate::order::lemma_push_to_set(names.take(n - 1), names[n - 1]);
        assert(names.take(n) =~= names.take(n - 1).push(names[n - 1]));
    }
}

/// Freezing a series of names, starting with no freeze file, lists exactly those
/// names, in `str` order without repeats.
pub proof fn law_freezes_list_names(names: Seq<Seq<char>>, outs: Seq<Seq<char>>)
    requires
        names.len() == outs.len(),
        names.len() > 0,
        forall|i: int|
            0 <= i < names.len() ==> #[trigger] single_line(names[i]) && is_trimmed(names[i])
                && names[i].len() > 0,
        forall|i: int|
            0 <= i < outs.len() ==> freeze_result(
                if i == 0 {
                    None
                } else {
                    Some(outs[i - 1])
                },
                names[i],
                #[trigger] outs[i],
            ),
    ensures
        strictly_sorted(listed(Some(outs.last()))),
        listed(Some(outs.last())).to_set() == names.to_set(),
{
    let n = outs.len() as int;
    lemma_freeze_series(names, outs, n);
    assert(names.take(n) =~= names);
    let l = trimmed_lines(outs[n - 1]);
    assert forall|i: int| 0 <= i < l.len() implies crate::text::nonempty(#[trigger] l[i]) by {
        assert(l.to_set().contains(l[i]));
        let k = choose|k: int| 0 <= k < names.len() && names[k] == l[i];
        assert(single_line(names[k]));
    }
    lemma_filter_all(l, |x: Seq<char>| crate::text::nonempty(x));
}

} // verus!
