use packages_site::breaks::sort_break_graph;
use packages_site::breaks::BreakEdge;

fn edge(package: &str, deps: &[&str]) -> BreakEdge {
    BreakEdge {
        package: package.to_string(),
        deplist: deps.iter().map(|d| d.to_string()).collect(),
    }
}

#[test]
fn layering_in_dependency_order() {
    let edges = vec![edge("A", &[]), edge("B", &["A"]), edge("C", &["A", "B"])];
    let (layers, cycle) = sort_break_graph(&edges);
    assert_eq!(
        layers,
        vec![vec!["A".to_string()], vec!["B".to_string()], vec!["C".to_string()]]
    );
    assert!(cycle.is_empty());
}

#[test]
fn cycle_is_returned_sorted() {
    let edges = vec![edge("B", &["A"]), edge("A", &["B"])];
    let (layers, cycle) = sort_break_graph(&edges);
    assert!(layers.is_empty());
    assert_eq!(cycle, vec!["A".to_string(), "B".to_string()]);
}

#[test]
fn layers_are_sorted_within_a_wave() {
    let edges = vec![edge("zzz", &[]), edge("aaa", &[]), edge("mmm", &["aaa", "zzz"])];
    let (layers, cycle) = sort_break_graph(&edges);
    assert_eq!(
        layers,
        vec![vec!["aaa".to_string(), "zzz".to_string()], vec!["mmm".to_string()]]
    );
    assert!(cycle.is_empty());
}

#[test]
fn no_node_dropped_or_duplicated() {
    // partial cycle plus a free node plus a node blocked on the cycle
    let edges = vec![
        edge("free", &[]),
        edge("x", &["y"]),
        edge("y", &["x"]),
        edge("z", &["x", "free"]),
    ];
    let (layers, cycle) = sort_break_graph(&edges);
    let mut all: Vec<String> = layers.into_iter().flatten().chain(cycle.into_iter()).collect();
    all.sort();
    assert_eq!(
        all,
        vec!["free".to_string(), "x".to_string(), "y".to_string(), "z".to_string()]
    );
}

#[test]
fn repeated_name_keeps_last_blocking_set() {
    // the mapping keeps the last row of a repeated name
    let edges = vec![edge("A", &["B"]), edge("B", &[]), edge("A", &[])];
    let (layers, cycle) = sort_break_graph(&edges);
    assert_eq!(layers, vec![vec!["A".to_string(), "B".to_string()]]);
    assert!(cycle.is_empty());
}

#[test]
fn unknown_blocker_means_cycle() {
    // a blocking name that never becomes ready keeps its dependant stuck
    let edges = vec![edge("A", &["ghostly"])];
    let (layers, cycle) = sort_break_graph(&edges);
    assert!(layers.is_empty());
    assert_eq!(cycle, vec!["A".to_string()]);
}

#[test]
fn empty_graph_is_fine() {
    let edges: Vec<BreakEdge> = Vec::new();
    let (layers, cycle) = sort_break_graph(&edges);
    assert!(layers.is_empty());
    assert!(cycle.is_empty());
}
