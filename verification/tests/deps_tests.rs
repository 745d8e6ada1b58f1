use packages_site::deps::Dependency;
use packages_site::revdep::group_rev_deps;
use packages_site::revdep::RevDep;

fn pkgs(d: &Dependency) -> Vec<(String, String)> {
    d.packages.clone()
}

#[test]
fn grouping_is_deterministic_and_name_sorted() {
    let parsed = Dependency::parse_db_dependencies("b|>=1|PKGDEP|,a|=2|PKGDEP|amd64");
    // architecture buckets come in ascending qualifier order: the
    // unqualified ("all architectures") bucket first, then amd64
    assert_eq!(parsed.len(), 2);
    assert_eq!(parsed[0].relationship, "Depends");
    assert_eq!(parsed[0].arch, "");
    assert_eq!(pkgs(&parsed[0]), vec![("b".to_string(), ">=1".to_string())]);
    assert_eq!(parsed[1].relationship, "Depends");
    assert_eq!(parsed[1].arch, "amd64");
    assert_eq!(pkgs(&parsed[1]), vec![("a".to_string(), "=2".to_string())]);

    // the same records in the other order parse identically
    let swapped = Dependency::parse_db_dependencies("a|=2|PKGDEP|amd64,b|>=1|PKGDEP|");
    assert_eq!(swapped.len(), parsed.len());
    for (x, y) in swapped.iter().zip(parsed.iter()) {
        assert_eq!(x.relationship, y.relationship);
        assert_eq!(x.arch, y.arch);
        assert_eq!(pkgs(x), pkgs(y));
    }

    // reparsing the same string twice yields identical output
    let again = Dependency::parse_db_dependencies("b|>=1|PKGDEP|,a|=2|PKGDEP|amd64");
    assert_eq!(again.len(), parsed.len());
    for (x, y) in again.iter().zip(parsed.iter()) {
        assert_eq!(x.relationship, y.relationship);
        assert_eq!(x.arch, y.arch);
        assert_eq!(pkgs(x), pkgs(y));
    }
}

#[test]
fn entries_sorted_by_name_within_bucket() {
    let parsed = Dependency::parse_db_dependencies("zlib|>=1|PKGDEP|,abc||PKGDEP|,mid|=3|PKGDEP|");
    assert_eq!(parsed.len(), 1);
    assert_eq!(
        pkgs(&parsed[0]),
        vec![
            ("abc".to_string(), "".to_string()),
            ("mid".to_string(), "=3".to_string()),
            ("zlib".to_string(), ">=1".to_string()),
        ]
    );
}

#[test]
fn relationship_kinds_keep_priority_order() {
    let parsed = Dependency::parse_db_dependencies("x||PKGSUG|,y||BUILDDEP|,z||PKGDEP|");
    let labels: Vec<&str> = parsed.iter().map(|d| d.relationship.as_str()).collect();
    assert_eq!(labels, vec!["Depends", "Depends (build)", "Suggests"]);
}

#[test]
fn unknown_kinds_are_dropped() {
    let parsed = Dependency::parse_db_dependencies("a||NOSUCHREL|,b||PKGBREAK|");
    assert_eq!(parsed.len(), 1);
    assert_eq!(parsed[0].relationship, "Breaks");
}

#[test]
fn missing_fields_default_to_empty() {
    let parsed = Dependency::parse_db_dependencies("solo||PKGPROV");
    assert_eq!(parsed.len(), 1);
    assert_eq!(parsed[0].relationship, "Provides");
    assert_eq!(parsed[0].arch, "");
    assert_eq!(pkgs(&parsed[0]), vec![("solo".to_string(), "".to_string())]);
}

#[test]
fn empty_input_yields_no_groups() {
    let parsed = Dependency::parse_db_dependencies("");
    assert!(parsed.is_empty());
}

fn rd(package: &str, relationship: &str, architecture: &str) -> RevDep {
    RevDep {
        package: package.to_string(),
        version: "1.0".to_string(),
        relationship: relationship.to_string(),
        architecture: architecture.to_string(),
    }
}

#[test]
fn revdep_collapses_to_all_architectures_row() {
    let rows = vec![
        rd("alpha", "PKGDEP", "amd64"),
        rd("alpha", "PKGDEP", ""),
        rd("alpha", "PKGDEP", "arm64"),
        rd("beta", "PKGDEP", "amd64"),
        rd("beta", "PKGDEP", "arm64"),
    ];
    let groups = group_rev_deps(&rows);
    assert_eq!(groups.len(), 1);
    assert_eq!(groups[0].description, "Depended by");
    let rows_out: Vec<(&str, &str)> = groups[0]
        .deps
        .iter()
        .map(|r| (r.package.as_str(), r.architecture.as_str()))
        .collect();
    // alpha has an all-architectures row, so only it stays; beta keeps both
    assert_eq!(rows_out, vec![("alpha", ""), ("beta", "amd64"), ("beta", "arm64")]);
}

#[test]
fn revdep_kinds_in_display_order() {
    let rows = vec![rd("a", "PKGSUG", ""), rd("b", "PKGDEP", ""), rd("c", "PKGRECOM", "")];
    let groups = group_rev_deps(&rows);
    let labels: Vec<&str> = groups.iter().map(|g| g.description.as_str()).collect();
    assert_eq!(labels, vec!["Depended by", "Recommended by", "Suggested by"]);
}

#[test]
fn revdep_missing_kind_has_no_group() {
    let rows = vec![rd("a", "PKGCONFL", "")];
    let groups = group_rev_deps(&rows);
    assert!(groups.is_empty());
}
