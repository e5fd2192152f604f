//! Source packages: a package directory of the build tree, with its version,
//! dependency, source and patch files, and its checksum file.

use vstd::prelude::*;

use crate::db::{file_view, listed};
use crate::order::sort_lines;
use crate::text::{
    chars_of, content_lines_of, is_whitespace, is_ws, join_path, path_join, sorted, str_eq,
    string_from, string_views, trim, trim_chars, trim_start_char, trim_start_char_of,
    copy_range, trimmed_lines, trimmed_lines_of, views,
};

verus! {

/// A package of the source tree.
#[derive(Debug, Clone)]
pub struct Package {
    pub name: String,
    /// The package's directory.
    pub path: String,
    pub version: String,
    pub depends: Vec<String>,
    pub sources: Vec<String>,
    /// The patch files, in path order.
    pub patches: Vec<String>,
}

/// `patches` are the files named `names`, in the directory `dir`, in `str` order
/// of their names (which is their path order, as they share a directory).
pub open spec fn patch_paths(dir: Seq<char>, names: Seq<Seq<char>>, patches: Seq<Seq<char>>) -> bool {
    exists|l: Seq<Seq<char>>|
        sorted(l) && l.to_multiset() == names.to_multiset() && patches == l.map_values(
            |f: Seq<char>| path_join(dir, f),
        )
}

impl Package {
    /// The package in the directory `path`, named `name` (the directory's name),
    /// given the contents of its `version`, `depends` and `sources` files
    /// (`None`: no such file) and the names of the files in its `patches`
    /// directory. Without a version file there is no package.
    pub fn from_dir(
        path: &str,
        name: &str,
        version_file: Option<&str>,
        depends_file: Option<&str>,
        sources_file: Option<&str>,
        patch_files: Vec<String>,
    ) -> (res: Option<Package>)
        ensures
            res is Some <==> version_file is Some,
            res matches Some(p) ==> {
                &&& p.name@ == name@
                &&& p.path@ == path@
                &&& p.version@ == trim(version_file.unwrap()@)
                &&& string_views(p.depends@) == listed(file_view(depends_file))
                &&& string_views(p.sources@) == listed(file_view(sources_file))
                &&& patch_paths(
                    path_join(path@, "patches"@),
                    string_views(patch_files@),
                    string_views(p.patches@),
                )
            },
    {
        let version = match version_file {
            None => {
                return None;
            },
            Some(v) => {
                let vc = chars_of(v);
                let t = trim_chars(vc.as_slice());
                string_from(t.as_slice())
            },
        };
        let depends = match depends_file {
            Some(c) => content_lines_of(c),
            None => Vec::new(),
        };
        let sources = match sources_file {
            Some(c) => content_lines_of(c),
            None => Vec::new(),
        };
        let mut names: Vec<Vec<char>> = Vec::new();
        let mut i: usize = 0;
        while i < patch_files.len()
            invariant
                i <= patch_files@.len(),
                views(names@) =~= string_views(patch_files@.take(i as int)),
            decreases patch_files@.len() - i,
        {
            names.push(chars_of(patch_files[i].as_str()));
            assert(string_views(patch_files@.take(i + 1)) =~= string_views(
                patch_files@.take(i as int),
            ).push(patch_files@[i as int]@));
            i = i + 1;
        }
        assert(patch_files@.take(patch_files@.len() as int) =~= patch_files@);
        let sorted_names = sort_lines(names);
        let dir = join_path(path, "patches");
        let ghost l = views(sorted_names@);
        let mut patches: Vec<String> = Vec::new();
        let mut j: usize = 0;
        while j < sorted_names.len()
            invariant
                j <= sorted_names@.len(),
                l == views(sorted_names@),
                string_views(patches@) =~= l.take(j as int).map_values(
                    |f: Seq<char>| path_join(dir@, f),
                ),
            decreases sorted_names@.len() - j,
        {
            let f = string_from(sorted_names[j].as_slice());
            let p = join_path(dir.as_str(), f.as_str());
            let ghost prev = patches@;
            patches.push(p);
            assert(string_views(patches@) =~= string_views(prev).push(p@));
            assert(l.take(j + 1).map_values(|f: Seq<char>| path_join(dir@, f)) =~= l.take(
                j as int,
            ).map_values(|f: Seq<char>| path_join(dir@, f)).push(path_join(dir@, l[j as int])));
            j = j + 1;
        }
        assert(l.take(l.len() as int) =~= l);
        let pkg = Package {
            name: string_from(chars_of(name).as_slice()),
            path: string_from(chars_of(path).as_slice()),
            version,
            depends,
            sources,
            patches,
        };
        Some(pkg)
    }

    /// The package's build script.
    pub fn build_script_path(&self) -> (res: String)
        ensures
            res@ == path_join(self.path@, "swellbuild"@),
    {
        join_path(self.path.as_str(), "swellbuild")
    }

    /// The package's checksum file.
    pub fn sha256_path(&self) -> (res: String)
        ensures
            res@ == path_join(self.path@, ".sha256"@),
    {
        join_path(self.path.as_str(), ".sha256")
    }
}

/// Whether `s[i]` is the first package in `s` named `name`.
pub open spec fn first_named(s: Seq<Package>, name: Seq<char>, i: int) -> bool {
    &&& 0 <= i < s.len()
    &&& s[i].name@ == name
    &&& forall|j: int| 0 <= j < i ==> s[j].name@ != name
}

/// The first package named `name`, if any.
pub fn find_package<'a>(packages: &'a [Package], name: &str) -> (res: Option<&'a Package>)
    ensures
        res matches Some(p) ==> exists|i: int| first_named(packages@, name@, i) && *p == packages@[i],
        res is None ==> forall|i: int| 0 <= i < packages@.len() ==> packages@[i].name@ != name@,
{
    let mut i: usize = 0;
    while i < packages.len()
        invariant
            i <= packages@.len(),
            forall|j: int| 0 <= j < i ==> packages@[j].name@ != name@,
        decreases packages@.len() - i,
    {
        if str_eq(packages[i].name.as_str(), name) {
            assert(first_named(packages@, name@, i as int));
            return Some(&packages[i]);
        }
        i = i + 1;
    }
    None
}

/// The category directories of the source tree, in the order they are searched.
pub fn repo_categories() -> (res: Vec<String>)
    ensures
        string_views(res@) == seq![
            "meta"@,
            "core"@,
            "desktop"@,
            "browser"@,
            "dev"@,
            "gaming"@,
            "multimedia"@,
            "office"@,
            "network"@,
        ],
{
    let mut v: Vec<String> = Vec::new();
    v.push("meta".to_string());
    v.push("core".to_string());
    v.push("desktop".to_string());
    v.push("browser".to_string());
    v.push("dev".to_string());
    v.push("gaming".to_string());
    v.push("multimedia".to_string());
    v.push("office".to_string());
    v.push("network".to_string());
    assert(string_views(v@) =~= seq![
        "meta"@,
        "core"@,
        "desktop"@,
        "browser"@,
        "dev"@,
        "gaming"@,
        "multimedia"@,
        "office"@,
        "network"@,
    ]);
    v
}


/// Index of the first white-space character of `s`, or `s.len()` when none.
pub open spec fn first_ws(s: Seq<char>) -> nat
    decreases s.len(),
{
    if s.len() == 0 || is_ws(s[0]) {
        0
    } else {
        1 + first_ws(s.drop_first())
    }
}

proof fn lemma_first_ws(s: Seq<char>, i: int)
    requires
        0 <= i <= s.len(),
        forall|j: int| 0 <= j < i ==> !is_ws(#[trigger] s[j]),
        i == s.len() || is_ws(s[i]),
    ensures
        first_ws(s) == i,
    decreases i,
{
    if i > 0 {
        let t = s.drop_first();
        assert forall|j: int| 0 <= j < i - 1 implies !is_ws(#[trigger] t[j]) by {
            assert(t[j] == s[j + 1]);
        }
        lemma_first_ws(t, i - 1);
    }
}

/// The file name and digest that one line of a checksum file gives: the text
/// before the first white space is the digest, the text after it, trimmed and
/// without leading `*`, the file name. A line without white space gives none.
pub open spec fn checksum_entry(l: Seq<char>) -> Option<(Seq<char>, Seq<char>)> {
    let k = first_ws(l);
    if k < l.len() {
        Some((trim_start_char(trim(l.skip(k + 1int)), '*'), l.take(k as int)))
    } else {
        None
    }
}

/// The digests that the trimmed lines `ls` of a checksum file give each file; of
/// two lines for one file the later one counts.
pub open spec fn checksum_map(ls: Seq<Seq<char>>) -> Map<Seq<char>, Seq<char>>
    decreases ls.len(),
{
    if ls.len() == 0 {
        Map::empty()
    } else {
        let m = checksum_map(ls.drop_last());
        let l = ls.last();
        if l.len() == 0 {
            m
        } else {
            match checksum_entry(l) {
                Some((file, digest)) => m.insert(file, digest),
                None => m,
            }
        }
    }
}

/// `pairs` lists the map `m`: each key once, with its value, and every key.
pub open spec fn lists_map(pairs: Seq<(String, String)>, m: Map<Seq<char>, Seq<char>>) -> bool {
    &&& forall|a: int, b: int|
        0 <= a < b < pairs.len() ==> (#[trigger] pairs[a]).0@ != (#[trigger] pairs[b]).0@
    &&& forall|a: int|
        0 <= a < pairs.len() ==> m.contains_key((#[trigger] pairs[a]).0@) && m[pairs[a].0@]
            == pairs[a].1@
    &&& forall|k: Seq<char>|
        #[trigger] m.contains_key(k) ==> exists|a: int| 0 <= a < pairs.len() && pairs[a].0@ == k
}

/// The file name and digest pairs of a checksum file's content (`file  digest`
/// lines as `sha256sum` writes them, `*` marking binary mode).
pub fn checksums_from(content: &str) -> (res: Vec<(String, String)>)
    ensures
        lists_map(res@, checksum_map(trimmed_lines(content@))),
{
    let cs = chars_of(content);
    let ls = trimmed_lines_of(cs.as_slice());
    let ghost all = views(ls@);
    let mut out: Vec<(String, String)> = Vec::new();
    let mut i: usize = 0;
    while i < ls.len()
        invariant
            i <= ls@.len(),
            all == views(ls@),
            lists_map(out@, checksum_map(all.take(i as int))),
        decreases ls@.len() - i,
    {
        let ghost m = checksum_map(all.take(i as int));
        proof {
            let t = all.take(i + 1);
            assert(t.drop_last() =~= all.take(i as int));
        }
        let l = &ls[i];
        if l.len() > 0 {
            let mut k: usize = 0;
            while k < l.len() && !is_whitespace(l[k])
                invariant
                    k <= l@.len(),
                    forall|j: int| 0 <= j < k ==> !is_ws(#[trigger] l@[j]),
                decreases l@.len() - k,
            {
                k = k + 1;
            }
            proof {
                lemma_first_ws(l@, k as int);
            }
            if k < l.len() {
                let digest = string_from(copy_range(l.as_slice(), 0, k).as_slice());
                let rest = copy_range(l.as_slice(), k + 1, l.len());
                let rt = trim_chars(rest.as_slice());
                let fc = trim_start_char_of(rt.as_slice(), '*');
                let file = string_from(fc.as_slice());
                assert(checksum_entry(l@) == Some((file@, digest@)));
                let ghost m2 = m.insert(file@, digest@);
                let mut j: usize = 0;
                while j < out.len() && !str_eq(out[j].0.as_str(), file.as_str())
                    invariant
                        j <= out@.len(),
                        lists_map(out@, m),
                        forall|a: int| 0 <= a < j ==> (#[trigger] out@[a]).0@ != file@,
                    decreases out@.len() - j,
                {
                    j = j + 1;
                }
                let found = j < out.len();
                if found {
                    let ghost prev = out@;
                    out.set(j, (file, digest));
                    proof {
                        assert forall|a: int| 0 <= a < out@.len() implies m2.contains_key(
                            (#[trigger] out@[a]).0@,
                        ) && m2[out@[a].0@] == out@[a].1@ by {
                            if a != j {
                                assert(out@[a] == prev[a]);
                                assert(prev[a].0@ != prev[j as int].0@);
                            }
                        }
                        assert forall|kk: Seq<char>| #[trigger] m2.contains_key(kk) implies exists|a: int|
                            0 <= a < out@.len() && out@[a].0@ == kk by {
                            if kk == file@ {
                                assert(out@[j as int].0@ == kk);
                            } else {
                                let a = choose|a: int| 0 <= a < prev.len() && prev[a].0@ == kk;
                                assert(out@[a] == prev[a]);
                            }
                        }
                        assert forall|a: int, b: int| 0 <= a < b < out@.len() implies (
                        #[trigger] out@[a]).0@ != (#[trigger] out@[b]).0@ by {
                            assert(prev[a].0@ != prev[b].0@);
                        }
                    }
                } else {
                    let ghost prev = out@;
                    out.push((file, digest));
                    proof {
                        assert forall|a: int| 0 <= a < out@.len() implies m2.contains_key(
                            (#[trigger] out@[a]).0@,
                        ) && m2[out@[a].0@] == out@[a].1@ by {
                            if a < prev.len() {
                                assert(out@[a] == prev[a]);
                            }
                        }
                        assert forall|kk: Seq<char>| #[trigger] m2.contains_key(kk) implies exists|a: int|
                            0 <= a < out@.len() && out@[a].0@ == kk by {
                            if kk == file@ {
                                assert(out@[prev.len() as int].0@ == kk);
                            } else {
                                let a = choose|a: int| 0 <= a < prev.len() && prev[a].0@ == kk;
                                assert(out@[a] == prev[a]);
                            }
                        }
                        assert forall|a: int, b: int| 0 <= a < b < out@.len() implies (
                        #[trigger] out@[a]).0@ != (#[trigger] out@[b]).0@ by {
                            if b < prev.len() {
                                assert(out@[a] == prev[a] && out@[b] == prev[b]);
                            } else {
                                assert(out@[a] == prev[a]);
                            }
                        }
                    }
                }
            }
        }
        i = i + 1;
    }
    assert(all.take(all.len() as int) =~= all);
    out
}

} // verus!
