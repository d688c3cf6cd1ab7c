use cargo_outdated::graph::{
    compare_versions, drift_cell, exit_status, find_dep_by_name, DriftRecord, PackageNode,
    ResolvedGraph,
};

fn node(name: &str, version: &str, deps: Vec<usize>) -> PackageNode {
    PackageNode { name: name.to_string(), version: version.to_string(), deps }
}

fn record(name: &str, current: &str, compat: Option<&str>, latest: Option<&str>) -> DriftRecord {
    DriftRecord {
        name: name.to_string(),
        current: current.to_string(),
        compat: compat.map(|s| s.to_string()),
        latest: latest.map(|s| s.to_string()),
    }
}

fn project_with_foo(foo_version: &str) -> ResolvedGraph {
    ResolvedGraph { nodes: vec![node("proj", "0.1.0", vec![1]), node("foo", foo_version, vec![])] }
}

#[test]
fn scenario_compatible_and_latest_upgrade() {
    let curr = project_with_foo("1.0.0");
    let compat = project_with_foo("1.2.0");
    let latest = project_with_foo("2.0.0");
    let r = compare_versions(&curr, 0, &compat, Some(0), &latest, Some(0));
    assert_eq!(r, vec![record("foo", "1.0.0", Some("1.2.0"), Some("2.0.0"))]);
    assert_eq!(drift_cell(&r[0].compat, &r[0].current), "1.2.0");
    assert_eq!(drift_cell(&r[0].latest, &r[0].current), "2.0.0");
}

#[test]
fn scenario_removed_in_latest() {
    let curr = project_with_foo("1.0.0");
    let compat = project_with_foo("1.0.0");
    let latest = ResolvedGraph { nodes: vec![node("proj", "0.1.0", vec![])] };
    let r = compare_versions(&curr, 0, &compat, Some(0), &latest, Some(0));
    assert_eq!(r, vec![record("foo", "1.0.0", Some("1.0.0"), None)]);
    assert_eq!(drift_cell(&r[0].compat, &r[0].current), "  --  ");
    assert_eq!(drift_cell(&r[0].latest, &r[0].current), "  RM  ");
}

fn workspace_sharing(shared_version: &str) -> ResolvedGraph {
    ResolvedGraph {
        nodes: vec![
            node("root", "0.1.0", vec![1, 2]),
            node("member_a", "0.1.0", vec![3]),
            node("member_b", "0.1.0", vec![3]),
            node("shared", shared_version, vec![]),
        ],
    }
}

#[test]
fn scenario_shared_dependency_reported_per_path() {
    let curr = workspace_sharing("0.3.0");
    let compat = workspace_sharing("0.3.1");
    let latest = workspace_sharing("0.4.0");
    let r = compare_versions(&curr, 0, &compat, Some(0), &latest, Some(0));
    let expected = record("shared", "0.3.0", Some("0.3.1"), Some("0.4.0"));
    assert_eq!(r.len(), 2);
    assert_eq!(r[0], expected);
    assert_eq!(r[1], expected);
}

#[test]
fn missing_edge_marks_branch_removed() {
    let curr = project_with_foo("1.0.0");
    let other = ResolvedGraph {
        nodes: vec![node("proj", "0.1.0", vec![1]), node("bar", "1.0.0", vec![])],
    };
    let r = compare_versions(&curr, 0, &other, Some(0), &curr, Some(0));
    assert_eq!(r, vec![record("foo", "1.0.0", None, Some("1.0.0"))]);
}

#[test]
fn absent_root_removes_whole_tree() {
    let curr = project_with_foo("1.0.0");
    let r = compare_versions(&curr, 0, &curr, None, &curr, None);
    assert_eq!(
        r,
        vec![record("proj", "0.1.0", None, None), record("foo", "1.0.0", None, None)]
    );
}

#[test]
fn no_updates_gives_empty_report_and_status_zero() {
    let curr = workspace_sharing("0.3.0");
    let r = compare_versions(&curr, 0, &curr, Some(0), &curr, Some(0));
    assert!(r.is_empty());
    assert_eq!(exit_status(&r, 7), 0);
}

#[test]
fn drift_sets_requested_exit_code() {
    let r = vec![record("foo", "1.0.0", Some("1.2.0"), Some("1.2.0"))];
    assert_eq!(exit_status(&r, 7), 7);
    assert_eq!(exit_status(&r, 0), 0);
    let quiet = vec![record("foo", "1.0.0", Some("1.0.0"), Some("1.0.0"))];
    assert_eq!(exit_status(&quiet, 7), 0);
}

#[test]
fn equal_versions_add_no_record_but_children_still_compared() {
    let curr = project_with_foo("1.0.0");
    let compat = project_with_foo("1.0.0");
    let latest = project_with_foo("1.1.0");
    let r = compare_versions(&curr, 0, &compat, Some(0), &latest, Some(0));
    assert_eq!(r, vec![record("foo", "1.0.0", Some("1.0.0"), Some("1.1.0"))]);
}

#[test]
fn find_dep_takes_first_name_match() {
    let g = ResolvedGraph {
        nodes: vec![
            node("proj", "0.1.0", vec![2, 1, 3]),
            node("dup", "1.0.0", vec![]),
            node("other", "1.0.0", vec![]),
            node("dup", "2.0.0", vec![]),
        ],
    };
    assert_eq!(find_dep_by_name(&"dup".to_string(), 0, &g), Some(1));
    assert_eq!(find_dep_by_name(&"other".to_string(), 0, &g), Some(2));
    assert_eq!(find_dep_by_name(&"none".to_string(), 0, &g), None);
    assert_eq!(find_dep_by_name(&"dup".to_string(), 1, &g), None);
}

#[test]
fn cycle_in_current_graph_is_cut() {
    let curr = ResolvedGraph {
        nodes: vec![node("a", "1.0.0", vec![1]), node("b", "1.0.0", vec![0])],
    };
    let r = compare_versions(&curr, 0, &curr, None, &curr, Some(0));
    assert_eq!(
        r,
        vec![record("a", "1.0.0", None, Some("1.0.0")), record("b", "1.0.0", None, Some("1.0.0"))]
    );
}

#[test]
fn well_formedness_checks_edges() {
    assert!(project_with_foo("1.0.0").is_well_formed());
    let bad = ResolvedGraph { nodes: vec![node("proj", "0.1.0", vec![5])] };
    assert!(!bad.is_well_formed());
    assert!(ResolvedGraph { nodes: vec![] }.is_well_formed());
}

#[test]
fn deps_sorted_by_name() {
    let g = ResolvedGraph {
        nodes: vec![
            node("proj", "0.1.0", vec![3, 1, 2]),
            node("serde", "1.0.0", vec![]),
            node("anyhow", "1.0.0", vec![]),
            node("log", "0.4.0", vec![1]),
        ],
    };
    let sorted = g.sort_deps_by_name();
    assert_eq!(sorted.nodes[0].deps, vec![2, 3, 1]);
    assert_eq!(sorted.nodes[3].deps, vec![1]);
    assert_eq!(sorted.nodes[1].name, "serde");
    assert_eq!(sorted.nodes[3].version, "0.4.0");
}

#[test]
fn sorted_graph_orders_report() {
    let curr = ResolvedGraph {
        nodes: vec![
            node("proj", "0.1.0", vec![2, 1]),
            node("alpha", "1.0.0", vec![]),
            node("beta", "1.0.0", vec![]),
        ],
    }
    .sort_deps_by_name();
    let r = compare_versions(&curr, 0, &curr, None, &curr, Some(0));
    let names: Vec<&str> = r.iter().map(|x| x.name.as_str()).collect();
    assert_eq!(names, vec!["proj", "alpha", "beta"]);
}
