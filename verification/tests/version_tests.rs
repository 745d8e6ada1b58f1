use packages_site::version::dpkg_version_status;
use packages_site::version::sort_versions_desc;

fn strs(v: &[&str]) -> Vec<String> {
    v.iter().map(|s| s.to_string()).collect()
}

#[test]
fn package_version_ordering_not_lexicographic() {
    let sorted = sort_versions_desc(&strs(&["1.0-1", "2:0.9-1", "1.0-2"]));
    assert_eq!(sorted, strs(&["2:0.9-1", "1.0-2", "1.0-1"]));
}

#[test]
fn epoch_dominates() {
    let sorted = sort_versions_desc(&strs(&["9.9", "1:0.1"]));
    assert_eq!(sorted, strs(&["1:0.1", "9.9"]));
}

#[test]
fn tilde_sorts_before_release() {
    let sorted = sort_versions_desc(&strs(&["1.0~rc1", "1.0"]));
    assert_eq!(sorted, strs(&["1.0", "1.0~rc1"]));
}

#[test]
fn numeric_parts_compare_as_numbers() {
    let sorted = sort_versions_desc(&strs(&["1.9", "1.10", "1.2"]));
    assert_eq!(sorted, strs(&["1.10", "1.9", "1.2"]));
}

#[test]
fn status_of_missing_package_is_behind() {
    assert_eq!(dpkg_version_status("", "1.0"), -1);
    assert_eq!(dpkg_version_status("1.0", "2.0"), -1);
    assert_eq!(dpkg_version_status("1.0", "1.0"), 0);
    assert_eq!(dpkg_version_status("2.0", "1.0"), 1);
}

#[test]
fn empty_list_sorts_to_empty() {
    let sorted = sort_versions_desc(&Vec::new());
    assert!(sorted.is_empty());
}
