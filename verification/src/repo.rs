//! The binary package repository: its index entries, the package list built
//! from them, and lookups in that list.

use vstd::prelude::*;

use crate::order::{lemma_insert_keeps_strictly_sorted, lemma_insert_multiset};
use crate::text::{
    all_ascii, ascii_lowered, chars_of, contains_chars, contains_seq, lemma_lt_total, lowercase, seq_lt, str_eq, str_lt, strictly_sorted,
    to_lowercase,
};

verus! {

broadcast use vstd::seq_lib::group_to_multiset_ensures;

/// One package as the repository index describes it, keyed by its name.
#[derive(Debug, Clone)]
pub struct RepoPackage {
    pub version: String,
    pub release: u32,
    pub depends: Vec<String>,
    pub size: u64,
    pub sha256: String,
    pub url: String,
}

/// The repository index: each package name with its description. The names come
/// from the keys of a JSON object, so none occurs twice.
#[derive(Debug)]
pub struct RepoDb {
    pub packages: Vec<(String, RepoPackage)>,
}

/// A package that the repository offers.
#[derive(Debug, Clone)]
pub struct Package {
    pub name: String,
    pub version: String,
    pub release: u32,
    pub depends: Vec<String>,
    pub sha256: String,
    pub url: String,
    pub size: u64,
}

/// The package that an index entry describes.
pub open spec fn to_package(e: (String, RepoPackage)) -> Package {
    Package {
        name: e.0,
        version: e.1.version,
        release: e.1.release,
        depends: e.1.depends,
        sha256: e.1.sha256,
        url: e.1.url,
        size: e.1.size,
    }
}

/// The names of a sequence of packages.
pub open spec fn names(s: Seq<Package>) -> Seq<Seq<char>> {
    s.map_values(|p: Package| p.name@)
}

/// No two entries of the index share a name.
pub open spec fn distinct_names(entries: Seq<(String, RepoPackage)>) -> bool {
    forall|a: int, b: int|
        0 <= a < b < entries.len() ==> (#[trigger] entries[a]).0@ != (#[trigger] entries[b]).0@
}

/// The packages of the index, in ascending order of name: every entry once, as a
/// package. The index's names are those of a JSON object's keys, so none repeats.
pub fn packages_from_db(db: RepoDb) -> (res: Vec<Package>)
    requires
        distinct_names(db.packages@),
    ensures
        strictly_sorted(names(res@)),
        res@.to_multiset() =~= db.packages@.map_values(|e: (String, RepoPackage)| to_package(e)).to_multiset(),
{
    let ghost all = db.packages@.map_values(|e: (String, RepoPackage)| to_package(e));
    let mut entries = db.packages;
    let mut out: Vec<Package> = Vec::new();
    assert(all.skip(entries@.len() as int) =~= out@);
    while entries.len() > 0
        invariant
            all.len() >= entries@.len(),
            entries@.map_values(|e: (String, RepoPackage)| to_package(e)) =~= all.take(entries@.len() as int),
            strictly_sorted(names(out@)),
            out@.to_multiset() =~= all.skip(entries@.len() as int).to_multiset(),
            all == db.packages@.map_values(|e: (String, RepoPackage)| to_package(e)),
            distinct_names(db.packages@),
            forall|a: int, k: int|
                0 <= a < out@.len() && 0 <= k < entries@.len() ==> (#[trigger] out@[a]).name@
                    != (#[trigger] all[k]).name@,
        decreases entries@.len(),
    {
        let ghost n = entries@.len() as int;
        let e = entries.pop().unwrap();
        proof {
            assert(entries@.map_values(|e: (String, RepoPackage)| to_package(e)) =~= all.take(n - 1));
            assert(all.take(n)[n - 1] == to_package(e));
            assert(all.skip(n - 1) =~= all.skip(n).insert(0, to_package(e)));
        }
        let (name, r) = e;
        let pkg = Package {
            name,
            version: r.version,
            release: r.release,
            depends: r.depends,
            sha256: r.sha256,
            url: r.url,
            size: r.size,
        };
        let mut p: usize = 0;
        while p < out.len() && !str_lt(pkg.name.as_str(), out[p].name.as_str())
            invariant
                p <= out@.len(),
                forall|q: int| 0 <= q < p ==> !seq_lt(pkg.name@, #[trigger] names(out@)[q]),
            decreases out@.len() - p,
        {
            p = p + 1;
        }
        let ghost s = out@;
        proof {
            assert(pkg == to_package(e));
            assert(pkg == all[n - 1]);
            assert forall|q: int| 0 <= q < p implies seq_lt(#[trigger] names(s)[q], pkg.name@) by {
                assert(s[q].name@ != all[n - 1].name@);
                lemma_lt_total(names(s)[q], pkg.name@);
            }
            lemma_insert_keeps_strictly_sorted(names(s), p as int, pkg.name@);
            lemma_insert_multiset(s, p as int, pkg);
            assert(names(s.insert(p as int, pkg)) =~= names(s).insert(p as int, pkg.name@));
        }
        out.insert(p, pkg);
        proof {
            assert forall|a: int, k: int|
                0 <= a < out@.len() && 0 <= k < entries@.len() implies (#[trigger] out@[a]).name@
                    != (#[trigger] all[k]).name@ by {
                assert(all[k].name@ == db.packages@[k].0@);
                assert(all[n - 1].name@ == db.packages@[n - 1].0@);
                if a < p {
                    assert(out@[a] == s[a]);
                } else if a > p {
                    assert(out@[a] == s[a - 1]);
                }
            }
        }
    }
    assert(all.skip(0) =~= all);
    out
}

/// Whether `s[i]` is the first package in `s` named `name`.
pub open spec fn first_named(s: Seq<Package>, name: Seq<char>, i: int) -> bool {
    &&& 0 <= i < s.len()
    &&& s[i].name@ == name
    &&& forall|j: int| 0 <= j < i ==> s[j].name@ != name
}

/// The first package named `name`, if any.
pub fn find_package<'a>(packages: &'a [Package], name: &str) -> (res: Option<&'a Package>)
    ensures
        res matches Some(p) ==> exists|i: int| first_named(packages@, name@, i) && *p == packages@[i],
        res is None ==> forall|i: int| 0 <= i < packages@.len() ==> packages@[i].name@ != name@,
{
    let mut i: usize = 0;
    while i < packages.len()
        invariant
            i <= packages@.len(),
            forall|j: int| 0 <= j < i ==> packages@[j].name@ != name@,
        decreases packages@.len() - i,
    {
        if str_eq(packages[i].name.as_str(), name) {
            assert(first_named(packages@, name@, i as int));
            return Some(&packages[i]);
        }
        i = i + 1;
    }
    None
}

/// A package matches a query when its name, lowercased, contains the query,
/// lowercased.
pub open spec fn matches_query(p: Package, query: Seq<char>) -> bool {
    contains_seq(lowercase(p.name@), lowercase(query))
}

/// The packages whose lowercased name contains the lowercased query, in order.
pub fn search_packages<'a>(packages: &'a [Package], query: &str) -> (res: Vec<&'a Package>)
    ensures
        res@.map_values(|p: &Package| *p) == packages@.filter(|p: Package| matches_query(p, query@)),
        all_ascii(query@) ==> forall|i: int|
            0 <= i < packages@.len() && all_ascii(#[trigger] packages@[i].name@) ==> (
            matches_query(packages@[i], query@) <==> contains_seq(
                ascii_lowered(packages@[i].name@),
                ascii_lowered(query@),
            )),
        query@.len() == 0 ==> res@.len() == packages@.len(),
        forall|k: int, i: int|
            0 <= k < packages@.len() && 0 <= i && i + lowercase(query@).len() <= lowercase(
                packages@[k].name@,
            ).len() && #[trigger] lowercase(packages@[k].name@).subrange(
                i,
                i + lowercase(query@).len(),
            ) == lowercase(query@) ==> res@.map_values(|p: &Package| *p).contains(packages@[k]),
{
    let ghost pred = |p: Package| matches_query(p, query@);
    let q = to_lowercase(query);
    let qc = chars_of(q.as_str());
    let mut out: Vec<&'a Package> = Vec::new();
    let mut i: usize = 0;
    while i < packages.len()
        invariant
            i <= packages@.len(),
            qc@ == lowercase(query@),
            pred == (|p: Package| matches_query(p, query@)),
            out@.map_values(|p: &Package| *p) =~= packages@.take(i as int).filter(pred),
            all_ascii(query@) ==> qc@ == ascii_lowered(query@),
            all_ascii(query@) ==> forall|j: int|
                0 <= j < i && all_ascii(#[trigger] packages@[j].name@) ==> (matches_query(
                    packages@[j],
                    query@,
                ) <==> contains_seq(ascii_lowered(packages@[j].name@), ascii_lowered(query@))),
            query@.len() == 0 ==> qc@.len() == 0 && out@.len() == i,
        decreases packages@.len() - i,
    {
        proof {
            assert(packages@.take(i + 1) =~= packages@.take(i as int).push(packages@[i as int]));
            packages@.take(i as int).lemma_filter_push(packages@[i as int], pred);
        }
        let n = to_lowercase(packages[i].name.as_str());
        let nc = chars_of(n.as_str());
        proof {
            if qc@.len() == 0 {
                assert(nc@.subrange(0, 0) =~= qc@);
                assert(crate::text::occurs_at(nc@, qc@, 0));
            }
        }
        if contains_chars(nc.as_slice(), qc.as_slice()) {
            let ghost prev = out@;
            out.push(&packages[i]);
            assert(out@.map_values(|p: &Package| *p) =~= prev.map_values(|p: &Package| *p).push(
                packages@[i as int],
            ));
        }
        i = i + 1;
    }
    assert(packages@.take(packages@.len() as int) =~= packages@);
    proof {
        assert forall|k: int, j: int|
            0 <= k < packages@.len() && 0 <= j && j + lowercase(query@).len() <= lowercase(
                packages@[k].name@,
            ).len() && #[trigger] lowercase(packages@[k].name@).subrange(
                j,
                j + lowercase(query@).len(),
            ) == lowercase(query@) implies out@.map_values(|p: &Package| *p).contains(
            packages@[k],
        ) by {
            crate::text::law_contains_any_position(
                lowercase(packages@[k].name@),
                lowercase(query@),
                j,
            );
            assert(pred(packages@[k]));
            packages@.lemma_filter_contains(pred, k);
        }
    }
    out
}


proof fn lemma_first_named_exists(s: Seq<Package>, name: Seq<char>, k: int)
    requires
        0 <= k < s.len(),
        s[k].name@ == name,
    ensures
        exists|i: int| first_named(s, name, i),
    decreases k,
{
    if exists|j: int| 0 <= j < k && s[j].name@ == name {
        let j = choose|j: int| 0 <= j < k && s[j].name@ == name;
        lemma_first_named_exists(s, name, j);
    } else {
        assert(first_named(s, name, k));
    }
}

/// Each package of an index whose names are distinct (as the keys of the JSON
/// object are) is found by its name in the package list built from it.
pub proof fn law_index_lookup(entries: Seq<(String, RepoPackage)>, list: Seq<Package>, k: int)
    requires
        distinct_names(entries),
        list.to_multiset() == entries.map_values(|e: (String, RepoPackage)| to_package(e)).to_multiset(),
        0 <= k < entries.len(),
    ensures
        exists|i: int| first_named(list, entries[k].0@, i) && list[i] == to_package(entries[k]),
{
    let all = entries.map_values(|e: (String, RepoPackage)| to_package(e));
    let name = entries[k].0@;
    assert(all[k] == to_package(entries[k]));
    assert(all.contains(all[k]));
    assert(all.to_multiset().count(all[k]) > 0);
    assert(list.contains(all[k]));
    let i0 = choose|i: int| 0 <= i < list.len() && list[i] == all[k];
    lemma_first_named_exists(list, name, i0);
    let i = choose|i: int| first_named(list, name, i);
    assert(list.contains(list[i]));
    assert(all.to_multiset().count(list[i]) > 0);
    assert(all.contains(list[i]));
    let m = choose|m: int| 0 <= m < all.len() && all[m] == list[i];
    assert(all[m].name@ == entries[m].0@);
    if m < k {
        assert(entries[m].0@ != entries[k].0@);
    } else if k < m {
        assert(entries[k].0@ != entries[m].0@);
    }
}

} // verus!
