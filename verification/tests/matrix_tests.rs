use packages_site::matrix::build_version_matrix;
use packages_site::matrix::BuildRecord;
use packages_site::matrix::PackageMeta;
use packages_site::matrix::SourceVersionRecord;
use packages_site::matrix::TestingRecord;
use packages_site::model::Repo;

fn meta(noarch: bool, tree_category: &str, fail_arch: &str, full_version: &str) -> PackageMeta {
    PackageMeta {
        tree: "aosc-os-abbs".to_string(),
        tree_category: tree_category.to_string(),
        full_version: full_version.to_string(),
        spec_path: "extra-apps/demo/spec".to_string(),
        noarch,
        fail_arch: fail_arch.to_string(),
    }
}

fn build(version: &str, reponame: &str) -> BuildRecord {
    BuildRecord {
        version: version.to_string(),
        repo: format!("{}/stable", reponame),
        reponame: reponame.to_string(),
        testing: 0,
        size: 1024,
    }
}

fn testing(version: &str, branch: &str) -> TestingRecord {
    TestingRecord {
        version: version.to_string(),
        tree: "aosc-os-abbs".to_string(),
        branch: branch.to_string(),
        spec_path: "extra-apps/demo/spec".to_string(),
    }
}

#[test]
fn testing_disambiguation_by_branch() {
    let pkg = meta(false, "", "", "");
    let tests = vec![
        testing("1.2", "origin/fix-a"),
        testing("1.2", "origin/fix-b"),
        testing("1.3", "origin/next"),
    ];
    let (versions, _matrix) =
        build_version_matrix(&pkg, true, &Vec::new(), &tests, &Vec::new(), &Vec::new()).unwrap();
    let keys: Vec<&str> = versions.iter().map(|v| v.version.as_str()).collect();
    assert_eq!(keys, vec!["1.3", "1.2-fix-b", "1.2-fix-a"]);
    // ambiguous versions carry their branch; a lone version keeps its key
    assert!(versions.iter().all(|v| v.testing));
    assert_eq!(versions[0].branch, "next");
    assert_eq!(
        versions[0].url,
        "https://github.com/AOSC-Dev/aosc-os-abbs/tree/next/extra-apps/demo/spec"
    );
}

#[test]
fn version_axis_descending_and_deduplicated() {
    let pkg = meta(false, "", "", "1.0-2");
    let builds = vec![build("1.0-1", "amd64"), build("1.0-1", "arm64"), build("2:0.9-1", "amd64")];
    let (versions, _matrix) =
        build_version_matrix(&pkg, true, &builds, &Vec::new(), &Vec::new(), &Vec::new()).unwrap();
    let keys: Vec<&str> = versions.iter().map(|v| v.version.as_str()).collect();
    assert_eq!(keys, vec!["2:0.9-1", "1.0-2", "1.0-1"]);
}

#[test]
fn declared_version_needs_the_tree() {
    let pkg = meta(false, "", "", "3.0");
    let builds = vec![build("1.0", "amd64")];
    let (versions, _) =
        build_version_matrix(&pkg, false, &builds, &Vec::new(), &Vec::new(), &Vec::new()).unwrap();
    let keys: Vec<&str> = versions.iter().map(|v| v.version.as_str()).collect();
    assert_eq!(keys, vec!["1.0"]);
}

#[test]
fn source_branch_fills_url_for_declared_version() {
    let pkg = meta(false, "", "", "1.5");
    let srcs = vec![SourceVersionRecord { fullver: "1.5".to_string(), branch: "stable".to_string() }];
    let (versions, _) =
        build_version_matrix(&pkg, true, &Vec::new(), &Vec::new(), &srcs, &Vec::new()).unwrap();
    assert_eq!(versions.len(), 1);
    assert!(!versions[0].testing);
    assert_eq!(versions[0].branch, "stable");
    assert_eq!(
        versions[0].url,
        "https://github.com/AOSC-Dev/aosc-os-abbs/tree/stable/extra-apps/demo/spec"
    );
}

#[test]
fn version_known_only_from_builds_has_no_url() {
    let pkg = meta(false, "", "", "");
    let builds = vec![build("4.2", "amd64")];
    let (versions, _) =
        build_version_matrix(&pkg, true, &builds, &Vec::new(), &Vec::new(), &Vec::new()).unwrap();
    assert_eq!(versions.len(), 1);
    assert_eq!(versions[0].url, "");
    assert_eq!(versions[0].branch, "");
    assert!(!versions[0].testing);
}

#[test]
fn matrix_cells_follow_builds() {
    let pkg = meta(false, "", "", "");
    let builds = vec![build("2.0", "amd64"), build("1.0", "amd64"), build("1.0", "arm64")];
    let (versions, matrix) =
        build_version_matrix(&pkg, true, &builds, &Vec::new(), &Vec::new(), &Vec::new()).unwrap();
    let keys: Vec<&str> = versions.iter().map(|v| v.version.as_str()).collect();
    assert_eq!(keys, vec!["2.0", "1.0"]);
    assert_eq!(matrix.len(), 2);
    assert_eq!(matrix[0].repo, "amd64");
    assert_eq!(matrix[1].repo, "arm64");
    assert!(matrix[0].meta[0].hasmeta);
    assert!(matrix[0].meta[1].hasmeta);
    assert!(!matrix[1].meta[0].hasmeta);
    assert!(matrix[1].meta[1].hasmeta);
    assert_eq!(matrix[0].meta[0].version, "2.0");
    assert_eq!(matrix[0].meta[0].repo, "amd64/stable");
    assert_eq!(matrix[0].meta[0].size, 1024);
    assert_eq!(matrix[1].meta[0].version, "");
}

#[test]
fn noarch_axis_is_the_single_pseudo_repo() {
    let pkg = meta(true, "", "", "");
    let builds = vec![build("1.0", "noarch")];
    let (_versions, matrix) =
        build_version_matrix(&pkg, true, &builds, &Vec::new(), &Vec::new(), &Vec::new()).unwrap();
    assert_eq!(matrix.len(), 1);
    assert_eq!(matrix[0].repo, "noarch");
}

#[test]
fn fail_arch_spec_drives_the_axis() {
    let pkg = meta(false, "base", "(arm64)", "");
    let repos = vec![
        Repo {
            name: "amd64".to_string(),
            realname: "amd64".to_string(),
            architecture: "amd64".to_string(),
            branch: "stable".to_string(),
            date: 0,
            testing: 0,
            category: "base".to_string(),
            testingonly: 0,
            pkgcount: 0,
            ghosts: 0,
            lagging: 0,
            missing: 0,
        },
        Repo {
            name: "arm64".to_string(),
            realname: "arm64".to_string(),
            architecture: "arm64".to_string(),
            branch: "stable".to_string(),
            date: 0,
            testing: 0,
            category: "base".to_string(),
            testingonly: 0,
            pkgcount: 0,
            ghosts: 0,
            lagging: 0,
            missing: 0,
        },
    ];
    let (_versions, matrix) =
        build_version_matrix(&pkg, true, &Vec::new(), &Vec::new(), &Vec::new(), &repos).unwrap();
    assert_eq!(matrix.len(), 1);
    assert_eq!(matrix[0].repo, "amd64");
}

#[test]
fn malformed_fail_arch_is_fatal() {
    let pkg = meta(false, "base", "(broken", "");
    let r = build_version_matrix(&pkg, true, &Vec::new(), &Vec::new(), &Vec::new(), &Vec::new());
    assert!(r.is_err());
}
