use packages_site::listing::filter_clean_candidates;
use packages_site::listing::repo_categories;
use packages_site::listing::total_pkgcount;
use packages_site::model::Repo;
use packages_site::listing::format_avail_repos;
use packages_site::listing::split_sodep;
use packages_site::listing::CleanCandidate;
use packages_site::listing::SoDep;
use packages_site::model::Page;
use packages_site::query::QueryExtractor;
use packages_site::srcurl::describe_src;
use packages_site::srcurl::Src;
use packages_site::srcurl::SrcType;
use packages_site::textfmt::cut;
use packages_site::textfmt::d;
use packages_site::textfmt::fmt_pkg_status;
use packages_site::textfmt::fmt_ver_compare;
use packages_site::textfmt::get_first_line;
use packages_site::textfmt::issue_code;
use packages_site::textfmt::ls_perm;
use packages_site::textfmt::strip_prefix;
use packages_site::textfmt::ver_rel;

#[test]
fn version_relation_labels() {
    assert_eq!(ver_rel(-2), "deprecated");
    assert_eq!(ver_rel(-1), "old");
    assert_eq!(ver_rel(0), "same");
    assert_eq!(ver_rel(1), "new");
    assert_eq!(ver_rel(7), "unknown");
    assert_eq!(fmt_ver_compare(&1), "new");
}

#[test]
fn package_status_labels() {
    assert_eq!(fmt_pkg_status(&0), "normal");
    assert_eq!(fmt_pkg_status(&1), "error");
    assert_eq!(fmt_pkg_status(&2), "testing");
    assert_eq!(fmt_pkg_status(&-5), "unknown");
}

#[test]
fn issue_codes_known_and_unknown() {
    assert_eq!(issue_code(100), Some("Metadata"));
    assert_eq!(issue_code(211), Some("Failed to build from source (FTBFS)"));
    assert_eq!(issue_code(432), Some("Library dependency without PKGDEP"));
    assert_eq!(issue_code(999), None);
}

#[test]
fn default_filter() {
    assert_eq!(d("text", "fallback", false), "text");
    assert_eq!(d("", "fallback", false), "fallback");
}

#[test]
fn cut_keeps_prefix() {
    assert_eq!(cut("abcdef", 3), "abc");
    assert_eq!(cut("ab", 10), "ab");
}

#[test]
fn first_line_handles_endings() {
    assert_eq!(get_first_line("one\ntwo"), "one");
    assert_eq!(get_first_line("one\r\ntwo"), "one");
    assert_eq!(get_first_line("plain"), "plain");
    assert_eq!(get_first_line(""), "");
    assert_eq!(get_first_line("\nrest"), "");
}

#[test]
fn strip_prefix_wants_a_slash() {
    assert_eq!(strip_prefix("/amd64/stable"), Some("amd64/stable"));
    assert_eq!(strip_prefix("amd64"), None);
    assert_eq!(strip_prefix(""), None);
}

#[test]
fn ls_permission_column() {
    assert_eq!(ls_perm(&0o755, &5), "drwxr-xr-x");
    assert_eq!(ls_perm(&0o644, &0), "-rw-r--r--");
    assert_eq!(ls_perm(&0o777, &1), "lrwxrwxrwx");
}

#[test]
fn page_metadata() {
    let p = Page::compute(121, Some(3));
    assert_eq!((p.cur, p.max, p.count), (3, 3, 121));
    let all = Page::compute(121, None);
    assert_eq!((all.cur, all.max, all.count), (1, 0, 121));
    let empty = Page::compute(0, Some(1));
    assert_eq!((empty.cur, empty.max, empty.count), (1, 0, 0));
    assert_eq!(Page::slice_bounds(121, 2), (60, 120));
    assert_eq!(Page::slice_bounds(121, 3), (120, 121));
    assert_eq!(Page::slice_bounds(121, 4), (121, 121));
}

fn query(page: Option<&str>) -> QueryExtractor {
    QueryExtractor {
        page: page.map(|p| p.to_string()),
        q: None,
        noredir: None,
        reason: None,
        type_: None,
    }
}

#[test]
fn page_parameter_parsing() {
    assert_eq!(query(None).get_page(), Some(1));
    assert_eq!(query(Some("all")).get_page(), None);
    assert_eq!(query(Some("7")).get_page(), Some(7));
    assert_eq!(query(Some("+12")).get_page(), Some(12));
    assert_eq!(query(Some("bogus")).get_page(), Some(1));
    assert_eq!(query(Some("99999999999999")).get_page(), Some(1));
    assert!(!query(None).get_noredir());
}

#[test]
fn src_parse_forms() {
    let s = Src::parse("SRCTBL", "https://example.org/x.tar.gz").unwrap();
    assert_eq!(s.srctype, SrcType::Tarball);
    assert_eq!(s.srcurl, "https://example.org/x.tar.gz");

    let s = Src::parse("SRCS", "git::https://example.org/repo.git").unwrap();
    assert_eq!(s.srctype, SrcType::Git);
    assert_eq!(s.srcurl, "https://example.org/repo.git");

    let s = Src::parse("SRCS", "tbl::opt::https://example.org/y.tar second::set").unwrap();
    assert_eq!(s.srctype, SrcType::Tarball);
    assert_eq!(s.srcurl, "https://example.org/y.tar");

    let s = Src::parse("SRCS", "https://example.org/plain.tar").unwrap();
    assert_eq!(s.srctype, SrcType::Tarball);
    assert_eq!(s.srcurl, "https://example.org/plain.tar");

    assert!(Src::parse("SRCS", "zip::https://example.org/a.zip").is_none());
    assert!(Src::parse("NOSUCH", "x").is_none());
    assert!(Src::parse("GITSRC", "").is_none());
    assert_eq!(SrcType::SvnSrc.label(), "Subversion");
}

#[test]
fn sodep_rows_split_by_flag() {
    let rows = vec![
        SoDep { depends: 1, soname: Some("libfoo.so.1".to_string()) },
        SoDep { depends: 0, soname: Some("libbar.so.2".to_string()) },
        SoDep { depends: 1, soname: None },
    ];
    let (needs, provides) = split_sodep(rows);
    assert_eq!(needs, vec!["libfoo.so.1".to_string()]);
    assert_eq!(provides, vec!["libbar.so.2".to_string()]);
}

#[test]
fn mirror_clean_reason_filter() {
    let debs = vec![
        CleanCandidate {
            filename: "a.deb".to_string(),
            removereason: "old,dup".to_string(),
        },
        CleanCandidate {
            filename: "b.deb".to_string(),
            removereason: "broken".to_string(),
        },
    ];
    let reasons = vec!["dup".to_string()];
    let out = filter_clean_candidates(&debs, &reasons);
    assert_eq!(out.len(), 1);
    assert_eq!(out[0].filename, "a.deb");
    assert_eq!(out[0].removereason, "dup");
}

#[test]
fn available_repos_formatting() {
    assert_eq!(format_avail_repos("arm64,amd64,arm64"), "amd64, arm64");
}

#[test]
fn upstream_base_guessing() {
    let (base, url, label) =
        describe_src("GITSRC", "https://github.com/AOSC-Dev/atm/archive/x");
    assert_eq!(base, "https://github.com/AOSC-Dev/atm");
    assert_eq!(url, "https://github.com/AOSC-Dev/atm/archive/x");
    assert_eq!(label, "git");

    // the source-tarball form links the third piece from the end
    let (base, _, label) =
        describe_src("SRCTBL", "https://pypi.io/packages/source/d/demo/demo-1.0.tar.gz");
    assert_eq!(base, "https://pypi.python.org/pypi/d/");
    assert_eq!(label, "tarball");

    // other index URLs split the next-to-last piece at its last dash
    let (base, _, _) =
        describe_src("SRCTBL", "https://pypi.io/packages/demo-1.0/file.tar.gz");
    assert_eq!(base, "https://pypi.python.org/pypi/demo/");

    let (base, _, _) = describe_src("SRCTBL", "example.org/pool/demo.tar.gz");
    assert_eq!(base, "example.org");

    let (base, _, _) = describe_src("GITSRC", "git://example.org/repo.git");
    assert_eq!(base, "http://example.org/repo.git");

    let (base, url, label) = describe_src("NOSUCH", "x");
    assert_eq!((base.as_str(), url.as_str(), label.as_str()), ("", "", ""));
}

#[test]
fn front_page_repo_grouping() {
    let mk = |name: &str, category: &str| Repo {
        name: name.to_string(),
        realname: name.to_string(),
        architecture: name.to_string(),
        branch: String::new(),
        date: 0,
        testing: 0,
        category: category.to_string(),
        testingonly: 0,
        pkgcount: 0,
        ghosts: 0,
        lagging: 0,
        missing: 0,
    };
    let repos = vec![mk("amd64", "base"), mk("rpi", "bsp"), mk("amd64-x", "overlay"), mk("arm64", "base")];
    let cats = repo_categories(&repos);
    assert_eq!(cats.len(), 3);
    assert_eq!(cats[0].0, "");
    assert_eq!(cats[0].1, vec![0, 3]);
    assert_eq!(cats[1].0, "BSP");
    assert_eq!(cats[1].1, vec![1]);
    assert_eq!(cats[2].0, "Overlay");
    assert_eq!(cats[2].1, vec![2]);

    assert_eq!(total_pkgcount(&vec![10, 20, 12]), 42);
    assert_eq!(total_pkgcount(&Vec::new()), 0);
}

#[test]
fn query_default_is_empty() {
    let q = QueryExtractor::default();
    assert_eq!(q.get_page(), Some(1));
    assert!(q.get_query().is_none());
    assert!(q.get_reason().is_none());
    assert!(q.get_type().is_none());
}
