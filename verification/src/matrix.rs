//! The version matrix: one axis of versions, one of repositories.
//!
//! Up to three sources contribute versions — finished builds, in-flight
//! testing builds, and the version declared in the source tree. They are
//! merged into one deduplicated list, sorted descending by package-version
//! ordering, and crossed with the resolved repository set to a sparse
//! availability matrix.

use crate::archfilter::filtered_realnames;
use crate::archfilter::resolve;
use crate::archfilter::spec_parse_fail_arch;
use crate::archfilter::FailArchError;
use crate::model::Repo;
use crate::strutil::dedup_first;
use crate::strutil::dedup_strings;
use crate::strutil::lemma_seq_views_index;
use crate::strutil::lemma_seq_views_len;
use crate::strutil::seq_views;
use crate::strutil::sort_lex;
use crate::strutil::sorted_unique_strings;
use crate::strutil::str_eq;
use crate::version::sort_versions_desc;
use crate::version::sorted_desc_adjacent;
use vstd::prelude::*;

verus! {

/// The package attributes the builder reads.
#[derive(Debug)]
pub struct PackageMeta {
    pub tree: String,
    pub tree_category: String,
    pub full_version: String,
    pub spec_path: String,
    pub noarch: bool,
    pub fail_arch: String,
}

/// One finished build of the package.
#[derive(Debug)]
pub struct BuildRecord {
    pub version: String,
    pub repo: String,
    pub reponame: String,
    pub testing: i64,
    pub size: i64,
}

/// One in-flight testing build.
#[derive(Debug)]
pub struct TestingRecord {
    pub version: String,
    pub tree: String,
    pub branch: String,
    pub spec_path: String,
}

/// One declared version in a branch of the source tree.
#[derive(Debug)]
pub struct SourceVersionRecord {
    pub fullver: String,
    pub branch: String,
}

/// One row of the version list shown to the user.
#[derive(Debug)]
pub struct VersionEntry {
    pub version: String,
    pub url: String,
    pub branch: String,
    pub testing: bool,
}

/// One cell of the matrix.
#[derive(Debug)]
pub struct DpkgMeta {
    pub hasmeta: bool,
    pub version: String,
    pub testing: i64,
    pub repo: String,
    pub size: i64,
}

/// One matrix row: a repository and its cell per version.
#[derive(Debug)]
pub struct MatrixRow {
    pub repo: String,
    pub meta: Vec<DpkgMeta>,
}

pub type TestingView = (Seq<char>, Seq<char>, Seq<char>, Seq<char>);

pub type BuildView = (Seq<char>, Seq<char>, Seq<char>, i64, i64);

pub open spec fn testing_view(t: TestingRecord) -> TestingView {
    (t.version@, t.tree@, t.branch@, t.spec_path@)
}

pub open spec fn testing_views(s: Seq<TestingRecord>) -> Seq<TestingView> {
    s.map_values(|t: TestingRecord| testing_view(t))
}

pub open spec fn build_view(b: BuildRecord) -> BuildView {
    (b.version@, b.repo@, b.reponame@, b.testing, b.size)
}

pub open spec fn build_views(s: Seq<BuildRecord>) -> Seq<BuildView> {
    s.map_values(|b: BuildRecord| build_view(b))
}

pub open spec fn source_view(s: SourceVersionRecord) -> (Seq<char>, Seq<char>) {
    (s.fullver@, s.branch@)
}

pub open spec fn source_views(s: Seq<SourceVersionRecord>) -> Seq<(Seq<char>, Seq<char>)> {
    s.map_values(|x: SourceVersionRecord| source_view(x))
}

pub open spec fn entry_view(e: VersionEntry) -> (Seq<char>, Seq<char>, Seq<char>, bool) {
    (e.version@, e.url@, e.branch@, e.testing)
}

pub open spec fn cell_view(c: DpkgMeta) -> (bool, Seq<char>, i64, Seq<char>, i64) {
    (c.hasmeta, c.version@, c.testing, c.repo@, c.size)
}

/// A branch name with the remote prefix trimmed.
pub open spec fn strip_origin(b: Seq<char>) -> Seq<char> {
    if b.len() >= 7 && b.take(7) == "origin/"@ {
        b.skip(7)
    } else {
        b
    }
}

/// How many testing records carry this version string.
pub open spec fn count_version(ts: Seq<TestingView>, v: Seq<char>) -> nat
    decreases ts.len(),
{
    if ts.len() == 0 {
        0
    } else {
        count_version(ts.drop_last(), v) + (if ts.last().0 == v {
            1nat
        } else {
            0nat
        })
    }
}

/// The display key of one testing record: the bare version, or
/// `version-branch` when the version string is ambiguous across branches.
pub open spec fn testing_key(ts: Seq<TestingView>, i: int) -> Seq<char> {
    if count_version(ts, ts[i].0) >= 2 {
        ts[i].0 + "-"@ + strip_origin(ts[i].2)
    } else {
        ts[i].0
    }
}

/// Index of the last entry of `keys` equal to `k`, or -1.
pub open spec fn last_index_of(keys: Seq<Seq<char>>, k: Seq<char>) -> int
    decreases keys.len(),
{
    if keys.len() == 0 {
        -1
    } else if keys.last() == k {
        keys.len() - 1
    } else {
        last_index_of(keys.drop_last(), k)
    }
}

pub proof fn lemma_last_index_of(keys: Seq<Seq<char>>, k: Seq<char>)
    ensures
        last_index_of(keys, k) >= 0 ==> 0 <= last_index_of(keys, k) < keys.len() && keys[
            last_index_of(keys, k)
        ] == k && (forall|j: int| last_index_of(keys, k) < j < keys.len() ==> keys[j] != k),
        last_index_of(keys, k) < 0 ==> (forall|j: int| 0 <= j < keys.len() ==> keys[j] != k),
    decreases keys.len(),
{
    if keys.len() != 0 {
        lemma_last_index_of(keys.drop_last(), k);
        assert(keys[keys.len() - 1] == keys.last());
        if keys.last() != k {
            let idx = last_index_of(keys, k);
            if idx >= 0 {
                assert(keys.drop_last()[idx] == keys[idx]);
                assert forall|j: int| idx < j < keys.len() implies keys[j] != k by {
                    if j < keys.len() - 1 {
                        assert(keys.drop_last()[j] == keys[j]);
                    }
                }
            }
            if idx < 0 {
                assert forall|j: int| 0 <= j < keys.len() implies keys[j] != k by {
                    if j < keys.len() - 1 {
                        assert(keys.drop_last()[j] == keys[j]);
                    }
                }
            }
        }
    }
}

/// The version keys offered for merging, in contribution order: build
/// versions, then the declared version when the package is in the tree,
/// then the testing keys.
pub open spec fn key_source(
    dpkg_versions: Seq<Seq<char>>,
    fullver: Seq<char>,
    pkgintree: bool,
    tkeys: Seq<Seq<char>>,
) -> Seq<Seq<char>> {
    dpkg_versions + (if pkgintree && fullver.len() > 0 {
        seq![fullver]
    } else {
        Seq::empty()
    }) + tkeys
}

/// What one version-list entry shows: its navigation URL, branch label and
/// testing flag, resolved in strict precedence — testing record first,
/// then declared source branch, else nothing.
pub open spec fn entry_fields(
    k: Seq<char>,
    ts: Seq<TestingView>,
    tkeys: Seq<Seq<char>>,
    svs: Seq<(Seq<char>, Seq<char>)>,
    tree: Seq<char>,
    spec_path: Seq<char>,
) -> (Seq<char>, Seq<char>, bool) {
    let ti = last_index_of(tkeys, k);
    if ti >= 0 {
        let t = ts[ti];
        let branch = strip_origin(t.2);
        (spec_url(t.1, branch, t.3), branch, true)
    } else {
        let si = last_index_of(svs.map_values(|p: (Seq<char>, Seq<char>)| p.0), k);
        if si >= 0 {
            let branch = svs[si].1;
            (spec_url(tree, branch, spec_path), branch, false)
        } else {
            (Seq::empty(), Seq::empty(), false)
        }
    }
}

/// The navigation URL of a version that lives in a source tree.
pub open spec fn spec_url(tree: Seq<char>, branch: Seq<char>, spec_path: Seq<char>) -> Seq<char> {
    "https://github.com/AOSC-Dev/"@ + tree + "/tree/"@ + branch + "/"@ + spec_path
}

/// Index of the first build of this repository and version key, or -1.
pub open spec fn first_build_match(ds: Seq<BuildView>, repo: Seq<char>, k: Seq<char>) -> int
    decreases ds.len(),
{
    if ds.len() == 0 {
        -1
    } else if ds[0].2 == repo && ds[0].0 == k {
        0
    } else {
        let r = first_build_match(ds.skip(1), repo, k);
        if r < 0 {
            -1
        } else {
            r + 1
        }
    }
}

/// The cell for one repository and one version key.
pub open spec fn cell_fields(ds: Seq<BuildView>, repo: Seq<char>, k: Seq<char>) -> (
    bool,
    Seq<char>,
    i64,
    Seq<char>,
    i64,
) {
    let i = first_build_match(ds, repo, k);
    if i >= 0 {
        (true, k, ds[i].3, ds[i].1, ds[i].4)
    } else {
        (false, Seq::empty(), 0, Seq::empty(), 0)
    }
}

/// The repository axis: the synthetic `noarch` entry for a noarch package;
/// the resolver's answer when a category and a fail-architecture spec are
/// both present; else the repositories observed in the builds.
pub open spec fn spec_reponames(
    noarch: bool,
    tree_category: Seq<char>,
    fail_arch: Seq<char>,
    repos: Seq<Repo>,
    ds: Seq<BuildView>,
) -> Seq<Seq<char>> {
    if noarch {
        seq!["noarch"@]
    } else if tree_category.len() > 0 && fail_arch.len() > 0 {
        let fa = spec_parse_fail_arch(fail_arch).unwrap();
        sort_lex(dedup_first(filtered_realnames(repos, tree_category, fa.0, fa.1)))
    } else {
        sort_lex(dedup_first(ds.map_values(|d: BuildView| d.2)))
    }
}

/// Whether the builder must consult the architecture-filter resolver.
pub open spec fn needs_filter(noarch: bool, tree_category: Seq<char>, fail_arch: Seq<char>) -> bool {
    !noarch && tree_category.len() > 0 && fail_arch.len() > 0
}


/// The version strings of a list of entries.
pub open spec fn entry_versions(es: Seq<VersionEntry>) -> Seq<Seq<char>> {
    es.map_values(|e: VersionEntry| e.version@)
}

proof fn lemma_entry_versions_index(es: Seq<VersionEntry>, i: int)
    requires
        0 <= i < es.len(),
    ensures
        entry_versions(es).len() == es.len(),
        entry_versions(es)[i] == es[i].version@,
{
}

proof fn lemma_testing_views_index(s: Seq<TestingRecord>, i: int)
    requires
        0 <= i < s.len(),
    ensures
        testing_views(s).len() == s.len(),
        testing_views(s)[i] == testing_view(s[i]),
{
}

proof fn lemma_build_views_index(s: Seq<BuildRecord>, i: int)
    requires
        0 <= i < s.len(),
    ensures
        build_views(s).len() == s.len(),
        build_views(s)[i] == build_view(s[i]),
{
}

proof fn lemma_source_views_index(s: Seq<SourceVersionRecord>, i: int)
    requires
        0 <= i < s.len(),
    ensures
        source_views(s).len() == s.len(),
        source_views(s)[i] == source_view(s[i]),
{
}

/// Trim the remote prefix from a branch name.
fn strip_origin_branch(b: &str) -> (r: String)
    ensures
        r@ == strip_origin(b@),
        vstd::utf8::is_ascii_chars(b@) ==> vstd::utf8::is_ascii_chars(r@),
{
    let len = b.unicode_len();
    if len >= 7 {
        let prefix = b.substring_char(0, 7);
        if str_eq(prefix, "origin/") {
            let rest = b.substring_char(7, len);
            proof {
                assert(b@.take(7) =~= b@.subrange(0, 7));
                assert(b@.skip(7) =~= b@.subrange(7, b@.len() as int));
                assert(vstd::utf8::is_ascii_chars(b@) ==> vstd::utf8::is_ascii_chars(rest@));
            }
            return rest.to_owned();
        }
        proof {
            assert(b@.take(7) =~= b@.subrange(0, 7));
        }
    }
    b.to_owned()
}

/// Join the pieces of a tree-hosted version's navigation URL.
fn build_url(tree: &str, branch: &str, spec_path: &str) -> (r: String)
    ensures
        r@ == spec_url(tree@, branch@, spec_path@),
{
    let mut url = String::from_str("https://github.com/AOSC-Dev/");
    url.append(tree);
    url.append("/tree/");
    url.append(branch);
    url.append("/");
    url.append(spec_path);
    url
}

/// How many testing records carry the version `v`.
fn count_testing_version(ts: &Vec<TestingRecord>, v: &str) -> (c: usize)
    ensures
        c == count_version(testing_views(ts@), v@),
{
    let mut c: usize = 0;
    let mut i: usize = 0;
    proof {
        assert(count_version(testing_views(ts@).take(0), v@) == 0);
    }
    while i < ts.len()
        invariant
            i <= ts@.len(),
            c <= i,
            c == count_version(testing_views(ts@).take(i as int), v@),
        decreases ts@.len() - i,
    {
        proof {
            lemma_testing_views_index(ts@, i as int);
            assert(testing_views(ts@).take(i as int + 1).drop_last() =~= testing_views(
                ts@,
            ).take(i as int));
            assert(testing_views(ts@).take(i as int + 1).last() == testing_views(ts@)[i as int]);
        }
        if str_eq(ts[i].version.as_str(), v) {
            c = c + 1;
        }
        i = i + 1;
    }
    proof {
        lemma_testing_views_len(ts@);
        assert(testing_views(ts@).take(ts@.len() as int) =~= testing_views(ts@));
    }
    c
}

proof fn lemma_testing_views_len(s: Seq<TestingRecord>)
    ensures
        testing_views(s).len() == s.len(),
{
}

/// The display key of every testing record, in record order.
fn testing_keys(ts: &Vec<TestingRecord>) -> (r: Vec<String>)
    requires
        forall|i: int|
            0 <= i < ts@.len() ==> vstd::utf8::is_ascii_chars(#[trigger] ts@[i].version@)
                && vstd::utf8::is_ascii_chars(ts@[i].branch@),
    ensures
        r@.len() == ts@.len(),
        forall|i: int|
            0 <= i < ts@.len() ==> seq_views(r@)[i] == testing_key(testing_views(ts@), i),
        forall|i: int|
            0 <= i < r@.len() ==> vstd::utf8::is_ascii_chars(#[trigger] seq_views(r@)[i]),
{
    let mut r: Vec<String> = Vec::new();
    let mut i: usize = 0;
    while i < ts.len()
        invariant
            i <= ts@.len(),
            r@.len() == i,
            forall|j: int|
                0 <= j < ts@.len() ==> vstd::utf8::is_ascii_chars(#[trigger] ts@[j].version@)
                    && vstd::utf8::is_ascii_chars(ts@[j].branch@),
            forall|j: int|
                0 <= j < i ==> seq_views(r@)[j] == testing_key(testing_views(ts@), j),
            forall|j: int|
                0 <= j < i ==> vstd::utf8::is_ascii_chars(#[trigger] seq_views(r@)[j]),
        decreases ts@.len() - i,
    {
        let ghost old_r = r@;
        let c = count_testing_version(ts, ts[i].version.as_str());
        proof {
            lemma_testing_views_index(ts@, i as int);
        }
        let key = if c >= 2 {
            let mut key = ts[i].version.clone();
            key.append("-");
            let stripped = strip_origin_branch(ts[i].branch.as_str());
            key.append(stripped.as_str());
            proof {
                assert(key@ == ts@[i as int].version@ + "-"@ + strip_origin(ts@[i as int].branch@));
                assert(vstd::utf8::is_ascii_chars(key@)) by {
                    assert(vstd::utf8::is_ascii_chars("-"@)) by {
                        reveal_strlit("-");
                    }
                }
            }
            key
        } else {
            ts[i].version.clone()
        };
        r.push(key);
        proof {
            assert forall|j: int| 0 <= j < i + 1 implies seq_views(r@)[j] == testing_key(
                testing_views(ts@),
                j,
            ) && vstd::utf8::is_ascii_chars(seq_views(r@)[j]) by {
                lemma_seq_views_index(r@, j);
                if j < i {
                    lemma_seq_views_index(old_r, j);
                }
            }
        }
        i = i + 1;
    }
    r
}

/// The position of the last string equal to `k`, if any.
fn find_last_string(keys: &Vec<String>, k: &str) -> (r: Option<usize>)
    ensures
        match r {
            Some(i) => i as int == last_index_of(seq_views(keys@), k@),
            None => last_index_of(seq_views(keys@), k@) < 0,
        },
{
    let mut best: Option<usize> = None;
    let mut i: usize = 0;
    proof {
        lemma_seq_views_len(keys@);
    }
    while i < keys.len()
        invariant
            i <= keys@.len(),
            match best {
                Some(b) => b < i && seq_views(keys@)[b as int] == k@ && (forall|j: int|
                    b < j < i ==> seq_views(keys@)[j] != k@),
                None => forall|j: int| 0 <= j < i ==> seq_views(keys@)[j] != k@,
            },
        decreases keys@.len() - i,
    {
        proof {
            lemma_seq_views_index(keys@, i as int);
        }
        if str_eq(keys[i].as_str(), k) {
            best = Some(i);
        }
        i = i + 1;
    }
    proof {
        lemma_last_index_of(seq_views(keys@), k@);
        lemma_seq_views_len(keys@);
    }
    best
}

/// The declared version strings, in record order.
fn source_fullvers(svs: &Vec<SourceVersionRecord>) -> (r: Vec<String>)
    ensures
        seq_views(r@) == source_views(svs@).map_values(|p: (Seq<char>, Seq<char>)| p.0),
{
    let mut out: Vec<String> = Vec::new();
    let mut i: usize = 0;
    proof {
        lemma_seq_views_len(out@);
    }
    while i < svs.len()
        invariant
            i <= svs@.len(),
            out@.len() == i,
            forall|j: int| 0 <= j < i ==> seq_views(out@)[j] == svs@[j].fullver@,
        decreases svs@.len() - i,
    {
        let ghost old_out = out@;
        out.push(svs[i].fullver.clone());
        proof {
            assert forall|j: int| 0 <= j < i + 1 implies seq_views(out@)[j] == svs@[j].fullver@ by {
                lemma_seq_views_index(out@, j);
                if j < i {
                    lemma_seq_views_index(old_out, j);
                }
            }
        }
        i = i + 1;
    }
    proof {
        let lhs = seq_views(out@);
        let rhs = source_views(svs@).map_values(|p: (Seq<char>, Seq<char>)| p.0);
        assert forall|j: int| 0 <= j < svs@.len() implies lhs[j] == rhs[j] by {
            lemma_source_views_index(svs@, j);
        }
        lemma_seq_views_len(out@);
        assert(lhs =~= rhs);
    }
    out
}

/// One version-list entry: testing record first, then declared source
/// branch, else a bare version.
fn make_entry(
    k: &String,
    ts: &Vec<TestingRecord>,
    tkeys: &Vec<String>,
    svs: &Vec<SourceVersionRecord>,
    svkeys: &Vec<String>,
    pkg: &PackageMeta,
) -> (e: VersionEntry)
    requires
        tkeys@.len() == ts@.len(),
        seq_views(svkeys@) == source_views(svs@).map_values(|p: (Seq<char>, Seq<char>)| p.0),
    ensures
        entry_view(e) == ({
            let f = entry_fields(
                k@,
                testing_views(ts@),
                seq_views(tkeys@),
                source_views(svs@),
                pkg.tree@,
                pkg.spec_path@,
            );
            (k@, f.0, f.1, f.2)
        }),
{
    proof {
        lemma_seq_views_len(tkeys@);
        lemma_testing_views_len(ts@);
        lemma_seq_views_len(svkeys@);
    }
    match find_last_string(tkeys, k.as_str()) {
        Some(ti) => {
            proof {
                lemma_last_index_of(seq_views(tkeys@), k@);
                lemma_testing_views_index(ts@, ti as int);
            }
            let branch = strip_origin_branch(ts[ti].branch.as_str());
            let url = build_url(
                ts[ti].tree.as_str(),
                branch.as_str(),
                ts[ti].spec_path.as_str(),
            );
            VersionEntry { version: k.clone(), url, branch, testing: true }
        },
        None => {
            match find_last_string(svkeys, k.as_str()) {
                Some(si) => {
                    proof {
                        lemma_last_index_of(seq_views(svkeys@), k@);
                        lemma_source_views_index(svs@, si as int);
                    }
                    let branch = svs[si].branch.clone();
                    let url = build_url(
                        pkg.tree.as_str(),
                        branch.as_str(),
                        pkg.spec_path.as_str(),
                    );
                    VersionEntry { version: k.clone(), url, branch, testing: false }
                },
                None => {
                    VersionEntry {
                        version: k.clone(),
                        url: String::new(),
                        branch: String::new(),
                        testing: false,
                    }
                },
            }
        },
    }
}

proof fn lemma_first_build_match(ds: Seq<BuildView>, repo: Seq<char>, k: Seq<char>)
    ensures
        first_build_match(ds, repo, k) >= 0 ==> ({
            let idx = first_build_match(ds, repo, k);
            &&& 0 <= idx < ds.len()
            &&& ds[idx].2 == repo && ds[idx].0 == k
            &&& forall|j: int| 0 <= j < idx ==> !(ds[j].2 == repo && ds[j].0 == k)
        }),
        first_build_match(ds, repo, k) < 0 ==> forall|j: int|
            0 <= j < ds.len() ==> !(ds[j].2 == repo && ds[j].0 == k),
    decreases ds.len(),
{
    if ds.len() != 0 && !(ds[0].2 == repo && ds[0].0 == k) {
        lemma_first_build_match(ds.skip(1), repo, k);
        let idx = first_build_match(ds, repo, k);
        let sub = first_build_match(ds.skip(1), repo, k);
        if sub >= 0 {
            assert(ds.skip(1)[sub] == ds[sub + 1]);
            assert forall|j: int| 0 <= j < idx implies !(ds[j].2 == repo && ds[j].0 == k) by {
                if j >= 1 {
                    assert(ds.skip(1)[j - 1] == ds[j]);
                }
            }
        } else {
            assert forall|j: int|
                0 <= j < ds.len() implies !(ds[j].2 == repo && ds[j].0 == k) by {
                if j >= 1 {
                    assert(ds.skip(1)[j - 1] == ds[j]);
                }
            }
        }
    }
}

/// The cell for one repository and one version key: the first matching
/// build, or an empty cell.
fn find_cell(ds: &Vec<BuildRecord>, repo: &str, k: &String) -> (c: DpkgMeta)
    ensures
        cell_view(c) == cell_fields(build_views(ds@), repo@, k@),
{
    let ghost dv = build_views(ds@);
    let mut i: usize = 0;
    proof {
        lemma_first_build_match(dv, repo@, k@);
    }
    while i < ds.len()
        invariant
            i <= ds@.len(),
            dv == build_views(ds@),
            forall|j: int| 0 <= j < i ==> !((#[trigger] dv[j]).2 == repo@ && dv[j].0 == k@),
        decreases ds@.len() - i,
    {
        proof {
            lemma_build_views_index(ds@, i as int);
        }
        if str_eq(ds[i].reponame.as_str(), repo) && str_eq(ds[i].version.as_str(), k.as_str()) {
            proof {
                lemma_first_build_match(dv, repo@, k@);
                let idx = first_build_match(dv, repo@, k@);
                if idx < 0 {
                    assert(false);
                }
                if idx < i {
                    assert(!(dv[idx].2 == repo@ && dv[idx].0 == k@));
                }
                if idx > i {
                    assert(!(dv[i as int].2 == repo@ && dv[i as int].0 == k@));
                }
                assert(idx == i as int);
            }
            return DpkgMeta {
                hasmeta: true,
                version: k.clone(),
                testing: ds[i].testing,
                repo: ds[i].repo.clone(),
                size: ds[i].size,
            };
        }
        i = i + 1;
    }
    proof {
        lemma_first_build_match(dv, repo@, k@);
        let idx = first_build_match(dv, repo@, k@);
        if idx >= 0 {
            assert(!(dv[idx].2 == repo@ && dv[idx].0 == k@));
        }
    }
    let c = DpkgMeta {
        hasmeta: false,
        version: String::new(),
        testing: 0,
        repo: String::new(),
        size: 0,
    };
    c
}


/// Build the ordered version list and the repository-by-version matrix.
///
/// Versions from finished builds, the declared tree version (when the
/// package is still in the tree) and the testing keys are merged without
/// duplicates and ordered descending by package-version ordering. Each
/// version entry resolves its URL, branch and testing flag by strict
/// precedence: testing record, then declared source branch, else bare.
/// The repository axis is `noarch` alone, or the resolver's answer, or
/// the repositories seen in the builds; each cell holds the first build
/// of its repository and version key. The one failure is a malformed
/// fail-architecture spec.
pub fn build_version_matrix(
    pkg: &PackageMeta,
    pkgintree: bool,
    dpkgs: &Vec<BuildRecord>,
    testing: &Vec<TestingRecord>,
    src_vers: &Vec<SourceVersionRecord>,
    all_repos: &Vec<Repo>,
) -> (r: Result<(Vec<VersionEntry>, Vec<MatrixRow>), FailArchError>)
    requires
        vstd::utf8::is_ascii_chars(pkg.full_version@),
        forall|i: int|
            0 <= i < dpkgs@.len() ==> vstd::utf8::is_ascii_chars(#[trigger] dpkgs@[i].version@),
        forall|i: int|
            0 <= i < testing@.len() ==> vstd::utf8::is_ascii_chars(#[trigger] testing@[i].version@)
                && vstd::utf8::is_ascii_chars(testing@[i].branch@),
    ensures
        (r is Err) <==> (needs_filter(pkg.noarch, pkg.tree_category@, pkg.fail_arch@)
            && spec_parse_fail_arch(pkg.fail_arch@) is None),
        match r {
            Ok(out) => ({
                let tks = Seq::new(
                    testing@.len(),
                    |i: int| testing_key(testing_views(testing@), i),
                );
                let source = key_source(
                    build_views(dpkgs@).map_values(|d: BuildView| d.0),
                    pkg.full_version@,
                    pkgintree,
                    tks,
                );
                let rn = spec_reponames(
                    pkg.noarch,
                    pkg.tree_category@,
                    pkg.fail_arch@,
                    all_repos@,
                    build_views(dpkgs@),
                );
                &&& entry_versions(out.0@).to_multiset() == dedup_first(source).to_multiset()
                &&& sorted_desc_adjacent(entry_versions(out.0@))
                &&& forall|i: int|
                    0 <= i < out.0@.len() ==> entry_view(#[trigger] out.0@[i]) == ({
                        let k = out.0@[i].version@;
                        let f = entry_fields(
                            k,
                            testing_views(testing@),
                            tks,
                            source_views(src_vers@),
                            pkg.tree@,
                            pkg.spec_path@,
                        );
                        (k, f.0, f.1, f.2)
                    })
                &&& out.1@.len() == rn.len()
                &&& forall|i: int|
                    0 <= i < out.1@.len() ==> (#[trigger] out.1@[i]).repo@ == rn[i]
                        && out.1@[i].meta@.len() == out.0@.len()
                &&& forall|i: int, j: int|
                    0 <= i < out.1@.len() && 0 <= j < out.0@.len() ==> cell_view(
                        #[trigger] out.1@[i].meta@[j],
                    ) == cell_fields(build_views(dpkgs@), rn[i], out.0@[j].version@)
            }),
            Err(_) => true,
        },
{
    let tkeys = testing_keys(testing);
    let ghost tks = Seq::new(testing@.len(), |i: int| testing_key(testing_views(testing@), i));
    proof {
        lemma_seq_views_len(tkeys@);
        assert(seq_views(tkeys@) =~= tks);
    }
    // gather every version key offered for merging
    let ghost gdvers = build_views(dpkgs@).map_values(|d: BuildView| d.0);
    let mut source: Vec<String> = Vec::new();
    let mut i: usize = 0;
    proof {
        lemma_seq_views_len(source@);
    }
    while i < dpkgs.len()
        invariant
            i <= dpkgs@.len(),
            gdvers == build_views(dpkgs@).map_values(|d: BuildView| d.0),
            source@.len() == i,
            forall|j: int| 0 <= j < i ==> seq_views(source@)[j] == gdvers[j],
            forall|j: int|
                0 <= j < dpkgs@.len() ==> vstd::utf8::is_ascii_chars(
                    #[trigger] dpkgs@[j].version@,
                ),
            forall|j: int|
                0 <= j < i ==> vstd::utf8::is_ascii_chars(#[trigger] seq_views(source@)[j]),
        decreases dpkgs@.len() - i,
    {
        let ghost old_s = source@;
        source.push(dpkgs[i].version.clone());
        proof {
            assert forall|j: int| 0 <= j < i + 1 implies seq_views(source@)[j] == gdvers[j] by {
                lemma_seq_views_index(source@, j);
                if j < i {
                    lemma_seq_views_index(old_s, j);
                }
                lemma_build_views_index(dpkgs@, j);
            }
            assert forall|j: int| 0 <= j < i + 1 implies vstd::utf8::is_ascii_chars(
                #[trigger] seq_views(source@)[j],
            ) by {
                lemma_seq_views_index(source@, j);
                if j < i {
                    lemma_seq_views_index(old_s, j);
                }
                lemma_build_views_index(dpkgs@, j);
                assert(vstd::utf8::is_ascii_chars(dpkgs@[j].version@));
            }
        }
        i = i + 1;
    }
    let ghost opt = if pkgintree && pkg.full_version@.len() > 0 {
        seq![pkg.full_version@]
    } else {
        Seq::<Seq<char>>::empty()
    };
    if pkgintree && !pkg.full_version.as_str().is_empty() {
        let ghost old_s = source@;
        source.push(pkg.full_version.clone());
        proof {
            lemma_seq_views_len(old_s);
            lemma_seq_views_len(source@);
            assert(seq_views(source@) =~= gdvers + opt) by {
                assert forall|j: int| 0 <= j < source@.len() implies seq_views(source@)[j]
                    == (gdvers + opt)[j] by {
                    lemma_seq_views_index(source@, j);
                    if j < old_s.len() {
                        lemma_seq_views_index(old_s, j);
                    }
                }
            }
        }
    } else {
        proof {
            lemma_seq_views_len(source@);
            assert(seq_views(source@) =~= gdvers + opt) by {
                assert forall|j: int| 0 <= j < source@.len() implies seq_views(source@)[j]
                    == (gdvers + opt)[j] by {
                    lemma_seq_views_index(source@, j);
                }
            }
        }
    }
    let ghost base = seq_views(source@);
    let ghost nbase = source@.len() as int;
    let mut t: usize = 0;
    proof {
        assert(base + tks.take(0) =~= base);
        assert(seq_views(source@) =~= base + tks.take(0));
    }
    while t < tkeys.len()
        invariant
            t <= tkeys@.len(),
            tks == seq_views(tkeys@),
            base == gdvers + opt,
            seq_views(source@) == base + tks.take(t as int),
            forall|j: int|
                0 <= j < tkeys@.len() ==> vstd::utf8::is_ascii_chars(
                    #[trigger] seq_views(tkeys@)[j],
                ),
            forall|j: int|
                0 <= j < base.len() ==> vstd::utf8::is_ascii_chars(#[trigger] base[j]),
        decreases tkeys@.len() - t,
    {
        let ghost old_s = source@;
        source.push(tkeys[t].clone());
        proof {
            lemma_seq_views_len(old_s);
            lemma_seq_views_len(source@);
            lemma_seq_views_index(tkeys@, t as int);
            assert(seq_views(source@) =~= base + tks.take(t as int + 1)) by {
                assert forall|j: int| 0 <= j < source@.len() implies seq_views(source@)[j] == (base
                    + tks.take(t as int + 1))[j] by {
                    lemma_seq_views_index(source@, j);
                    if j < old_s.len() {
                        lemma_seq_views_index(old_s, j);
                    }
                }
            }
        }
        t = t + 1;
    }
    proof {
        lemma_seq_views_len(tkeys@);
        assert(tks.take(tkeys@.len() as int) =~= tks);
        assert(seq_views(source@) =~= key_source(gdvers, pkg.full_version@, pkgintree, tks));
        assert forall|j: int|
            0 <= j < seq_views(source@).len() implies vstd::utf8::is_ascii_chars(
            #[trigger] seq_views(source@)[j],
        ) by {
            if j < base.len() {
            } else {
                lemma_seq_views_index(tkeys@, j - base.len());
            }
        }
    }
    // merge, drop duplicates, order descending
    let deduped = dedup_strings(&source);
    proof {
        crate::strutil::lemma_seq_views_len(deduped@);
        assert forall|j: int|
            0 <= j < deduped@.len() implies vstd::utf8::is_ascii_chars(
            #[trigger] deduped@[j]@,
        ) by {
            lemma_seq_views_index(deduped@, j);
            assert(seq_views(deduped@).contains(seq_views(deduped@)[j]));
            crate::strutil::lemma_dedup_first_membership(
                seq_views(source@),
                seq_views(deduped@)[j],
            );
            let m = choose|m: int|
                0 <= m < seq_views(source@).len() && seq_views(source@)[m] == seq_views(
                    deduped@,
                )[j];
            assert(vstd::utf8::is_ascii_chars(seq_views(source@)[m]));
        }
        assert(crate::version::all_ascii(deduped@));
    }
    let keys = sort_versions_desc(&deduped);
    let ghost gkeys = seq_views(keys@);
    proof {
        lemma_seq_views_len(keys@);
    }
    // the version list
    let svkeys = source_fullvers(src_vers);
    let mut entries: Vec<VersionEntry> = Vec::new();
    let mut e: usize = 0;
    proof {
        lemma_seq_views_len(tkeys@);
        lemma_testing_views_len(testing@);
    }
    while e < keys.len()
        invariant
            e <= keys@.len(),
            gkeys == seq_views(keys@),
            tks == seq_views(tkeys@),
            tkeys@.len() == testing@.len(),
            seq_views(svkeys@) == source_views(src_vers@).map_values(
                |p: (Seq<char>, Seq<char>)| p.0,
            ),
            entries@.len() == e,
            forall|j: int|
                0 <= j < e ==> entry_view(#[trigger] entries@[j]) == ({
                    let k = gkeys[j];
                    let f = entry_fields(
                        k,
                        testing_views(testing@),
                        tks,
                        source_views(src_vers@),
                        pkg.tree@,
                        pkg.spec_path@,
                    );
                    (k, f.0, f.1, f.2)
                }),
        decreases keys@.len() - e,
    {
        proof {
            lemma_seq_views_index(keys@, e as int);
        }
        let entry = make_entry(&keys[e], testing, &tkeys, src_vers, &svkeys, pkg);
        let ghost old_e = entries@;
        entries.push(entry);
        proof {
            assert forall|j: int| 0 <= j < e + 1 implies entry_view(#[trigger] entries@[j]) == ({
                let k = gkeys[j];
                let f = entry_fields(
                    k,
                    testing_views(testing@),
                    tks,
                    source_views(src_vers@),
                    pkg.tree@,
                    pkg.spec_path@,
                );
                (k, f.0, f.1, f.2)
            }) by {
                if j < e {
                    assert(entries@[j] == old_e[j]);
                }
            }
        }
        e = e + 1;
    }
    proof {
        assert(entry_versions(entries@) =~= gkeys) by {
            assert forall|j: int| 0 <= j < entries@.len() implies entry_versions(entries@)[j]
                == gkeys[j] by {
                lemma_entry_versions_index(entries@, j);
            }
        }
    }
    // the repository axis
    let ghost rn = spec_reponames(
        pkg.noarch,
        pkg.tree_category@,
        pkg.fail_arch@,
        all_repos@,
        build_views(dpkgs@),
    );
    let repos_v: Vec<String> = if pkg.noarch {
        let mut v: Vec<String> = Vec::new();
        v.push(String::from_str("noarch"));
        proof {
            lemma_seq_views_len(v@);
            assert(seq_views(v@) =~= seq!["noarch"@]) by {
                lemma_seq_views_index(v@, 0);
            }
        }
        v
    } else if !pkg.tree_category.as_str().is_empty() && !pkg.fail_arch.as_str().is_empty() {
        match resolve(pkg.fail_arch.as_str(), pkg.tree_category.as_str(), all_repos) {
            Ok(v) => v,
            Err(err) => {
                return Err(err);
            },
        }
    } else {
        let mut names: Vec<String> = Vec::new();
        let mut d: usize = 0;
        let ghost gdr = build_views(dpkgs@).map_values(|x: BuildView| x.2);
        proof {
            lemma_seq_views_len(names@);
        }
        while d < dpkgs.len()
            invariant
                d <= dpkgs@.len(),
                gdr == build_views(dpkgs@).map_values(|x: BuildView| x.2),
                names@.len() == d,
                forall|j: int| 0 <= j < d ==> seq_views(names@)[j] == gdr[j],
            decreases dpkgs@.len() - d,
        {
            let ghost old_n = names@;
            names.push(dpkgs[d].reponame.clone());
            proof {
                assert forall|j: int| 0 <= j < d + 1 implies seq_views(names@)[j] == gdr[j] by {
                    lemma_seq_views_index(names@, j);
                    if j < d {
                        lemma_seq_views_index(old_n, j);
                    }
                    lemma_build_views_index(dpkgs@, j);
                }
            }
            d = d + 1;
        }
        proof {
            lemma_seq_views_len(names@);
            assert(seq_views(names@) =~= gdr);
        }
        sorted_unique_strings(&names)
    };
    proof {
        assert(seq_views(repos_v@) == rn);
        lemma_seq_views_len(repos_v@);
    }
    // the matrix
    let mut rows: Vec<MatrixRow> = Vec::new();
    let mut ri: usize = 0;
    while ri < repos_v.len()
        invariant
            ri <= repos_v@.len(),
            rn == seq_views(repos_v@),
            gkeys == seq_views(keys@),
            entries@.len() == keys@.len(),
            rows@.len() == ri,
            forall|u: int|
                0 <= u < ri ==> (#[trigger] rows@[u]).repo@ == rn[u] && rows@[u].meta@.len()
                    == keys@.len(),
            forall|u: int, j: int|
                0 <= u < ri && 0 <= j < keys@.len() ==> cell_view(
                    #[trigger] rows@[u].meta@[j],
                ) == cell_fields(build_views(dpkgs@), rn[u], gkeys[j]),
        decreases repos_v@.len() - ri,
    {
        let mut meta: Vec<DpkgMeta> = Vec::new();
        let mut mj: usize = 0;
        proof {
            lemma_seq_views_index(repos_v@, ri as int);
        }
        while mj < keys.len()
            invariant
                mj <= keys@.len(),
                ri < repos_v@.len(),
                rn == seq_views(repos_v@),
                gkeys == seq_views(keys@),
                repos_v@[ri as int]@ == rn[ri as int],
                meta@.len() == mj,
                forall|j: int|
                    0 <= j < mj ==> cell_view(#[trigger] meta@[j]) == cell_fields(
                        build_views(dpkgs@),
                        rn[ri as int],
                        gkeys[j],
                    ),
            decreases keys@.len() - mj,
        {
            proof {
                lemma_seq_views_index(keys@, mj as int);
            }
            let cell = find_cell(dpkgs, repos_v[ri].as_str(), &keys[mj]);
            let ghost old_m = meta@;
            meta.push(cell);
            proof {
                assert forall|j: int| 0 <= j < mj + 1 implies cell_view(#[trigger] meta@[j])
                    == cell_fields(build_views(dpkgs@), rn[ri as int], gkeys[j]) by {
                    if j < mj {
                        assert(meta@[j] == old_m[j]);
                    }
                }
            }
            mj = mj + 1;
        }
        let ghost old_rows = rows@;
        let row = MatrixRow { repo: repos_v[ri].clone(), meta };
        rows.push(row);
        proof {
            assert forall|u: int| 0 <= u < ri + 1 implies (#[trigger] rows@[u]).repo@ == rn[u]
                && rows@[u].meta@.len() == keys@.len() by {
                if u < ri {
                    assert(rows@[u] == old_rows[u]);
                }
            }
            assert forall|u: int, j: int|
                0 <= u < ri + 1 && 0 <= j < keys@.len() implies cell_view(
                #[trigger] rows@[u].meta@[j],
            ) == cell_fields(build_views(dpkgs@), rn[u], gkeys[j]) by {
                if u < ri {
                    assert(rows@[u] == old_rows[u]);
                }
            }
        }
        ri = ri + 1;
    }
    proof {
        crate::strutil::lemma_seq_views_len(repos_v@);
        assert(entry_versions(entries@).to_multiset() == dedup_first(
            key_source(gdvers, pkg.full_version@, pkgintree, tks),
        ).to_multiset()) by {
            assert(entry_versions(entries@) == gkeys);
            assert(seq_views(deduped@) == dedup_first(seq_views(source@)));
            assert(seq_views(source@) == key_source(gdvers, pkg.full_version@, pkgintree, tks));
        }
        assert(sorted_desc_adjacent(entry_versions(entries@)));
        assert forall|i2: int, j2: int|
            0 <= i2 < rows@.len() && 0 <= j2 < entries@.len() implies cell_view(
            #[trigger] rows@[i2].meta@[j2],
        ) == cell_fields(build_views(dpkgs@), rn[i2], entries@[j2].version@) by {
            lemma_entry_versions_index(entries@, j2);
            assert(entries@[j2].version@ == gkeys[j2]);
        }
    }
    Ok((entries, rows))
}

} // verus!
