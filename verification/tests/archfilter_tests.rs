use packages_site::archfilter::parse_fail_arch;
use packages_site::archfilter::resolve;
use packages_site::archfilter::FailArch;
use packages_site::model::Repo;

fn repo(name: &str, realname: &str, category: &str) -> Repo {
    Repo {
        name: name.to_string(),
        realname: realname.to_string(),
        architecture: realname.to_string(),
        branch: "stable".to_string(),
        date: 0,
        testing: 0,
        category: category.to_string(),
        testingonly: 0,
        pkgcount: 0,
        ghosts: 0,
        lagging: 0,
        missing: 0,
    }
}

fn names(v: &[Repo]) -> Vec<Repo> {
    let mut out = Vec::new();
    for r in v {
        out.push(repo(&r.name, &r.realname, &r.category));
    }
    out
}

fn abc() -> Vec<Repo> {
    names(&[repo("a", "A", "X"), repo("b", "B", "X"), repo("c", "C", "X")])
}

#[test]
fn include_variant_polarity() {
    // the "include" list names the failing architectures: they are dropped
    let r = resolve("(B)", "X", &abc()).unwrap();
    assert_eq!(r, vec!["A".to_string(), "C".to_string()]);
}

#[test]
fn include_variant_bare_name() {
    let r = resolve("B", "X", &abc()).unwrap();
    assert_eq!(r, vec!["A".to_string(), "C".to_string()]);
}

#[test]
fn exclude_variant_keeps_only_listed() {
    let r = resolve("!(B)", "X", &abc()).unwrap();
    assert_eq!(r, vec!["B".to_string()]);
}

#[test]
fn resolved_set_is_subset_sorted_unique() {
    let repos = names(&[
        repo("c", "C", "X"),
        repo("a", "A", "X"),
        repo("a2", "A", "X"),
        repo("n", "noarch", "X"),
        repo("d", "D", "Y"),
    ]);
    let r = resolve("!(A|C|D|noarch)", "X", &repos).unwrap();
    // sorted ascending, no duplicates, no noarch, only category X
    assert_eq!(r, vec!["A".to_string(), "C".to_string()]);
}

#[test]
fn malformed_spec_is_an_error() {
    let repos = abc();
    assert!(resolve("(B", "X", &repos).is_err());
    assert!(resolve("", "X", &repos).is_err());
    assert!(resolve("!()", "X", &repos).is_err());
    assert!(resolve("(A||B)", "X", &repos).is_err());
    let err = resolve("(B", "X", &repos).unwrap_err();
    assert_eq!(err.message(), "invalid FAIL_ARCH format");
}

#[test]
fn parse_variants() {
    match parse_fail_arch("(a|b)").unwrap() {
        FailArch::Include(v) => assert_eq!(v, vec!["a".to_string(), "b".to_string()]),
        _ => panic!("expected the include variant"),
    }
    match parse_fail_arch("!riscv64").unwrap() {
        FailArch::Exclude(v) => assert_eq!(v, vec!["riscv64".to_string()]),
        _ => panic!("expected the exclude variant"),
    }
    assert!(parse_fail_arch("a|b").is_err());
}

#[test]
fn category_filter_applies() {
    let repos = names(&[repo("a", "A", "X"), repo("b", "B", "Y")]);
    let r = resolve("!(A|B)", "Y", &repos).unwrap();
    assert_eq!(r, vec!["B".to_string()]);
}
