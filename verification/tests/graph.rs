use builder_core::graph::{DependencyGraph, Edge, ExtendOutcome, GraphStats};
use builder_core::ident::PackageIdent;
use builder_core::record::{DependencyKind, PackageRecord, RecordError};
use builder_core::target::PackageTarget;

fn full(origin: &str, name: &str, version: &str, release: &str) -> PackageIdent {
    PackageIdent {
        origin: origin.to_string(),
        name: name.to_string(),
        version: Some(version.to_string()),
        release: Some(release.to_string()),
    }
}

fn short(origin: &str, name: &str) -> PackageIdent {
    PackageIdent { origin: origin.to_string(), name: name.to_string(), version: None, release: None }
}

fn linux(id: PackageIdent, deps: Vec<PackageIdent>, build_deps: Vec<PackageIdent>) -> PackageRecord {
    PackageRecord { target: "x86_64-linux".to_string(), ident: id, deps, build_deps }
}

fn pkg(name: &str, deps: &[&str], build_deps: &[&str]) -> PackageRecord {
    linux(
        full("core", name, "1.0.0", "20200101000000"),
        deps.iter().map(|d| short("core", d)).collect(),
        build_deps.iter().map(|d| short("core", d)).collect(),
    )
}

fn names(idents: &[PackageIdent]) -> Vec<String> {
    idents.iter().map(|i| format!("{}/{}", i.origin, i.name)).collect()
}

#[test]
fn new_graph_is_empty() {
    let graph = DependencyGraph::new(PackageTarget::X8664Windows);
    assert_eq!(graph.target(), PackageTarget::X8664Windows);
    assert_eq!(graph.stats(), GraphStats { node_count: 0, edge_count: 0 });
    assert!(graph.build_order().is_empty());
}

#[test]
fn extend_creates_nodes_and_edges() {
    let mut graph = DependencyGraph::new(PackageTarget::X8664Linux);
    let outcome = graph.extend(&pkg("a", &["b", "c"], &[]), false).unwrap();
    assert_eq!(outcome, ExtendOutcome { nodes_touched: 3, edges_added: 2, edges_rejected: 0 });
    assert_eq!(graph.node_count(), 3);
    assert_eq!(graph.edge_count(), 2);
    assert!(graph.has_edge(&short("core", "a"), &short("core", "b")));
    assert!(graph.has_edge(&short("core", "a"), &short("core", "c")));
    assert!(!graph.has_edge(&short("core", "b"), &short("core", "a")));
}

#[test]
fn a_dependency_seen_before_its_record_is_a_placeholder() {
    let mut graph = DependencyGraph::new(PackageTarget::X8664Linux);
    graph.extend(&pkg("a", &["b"], &[]), false).unwrap();
    let b = graph.node(&short("core", "b")).unwrap();
    assert!(!b.resolved);
    assert_eq!(b.ident, short("core", "b"));
    let outcome = graph.extend(&pkg("b", &[], &[]), false).unwrap();
    assert_eq!(outcome, ExtendOutcome { nodes_touched: 1, edges_added: 0, edges_rejected: 0 });
    let b = graph.node(&short("core", "b")).unwrap();
    assert!(b.resolved);
    assert_eq!(b.ident, full("core", "b", "1.0.0", "20200101000000"));
    assert_eq!(graph.node_count(), 2);
    assert!(graph.node(&short("core", "zzz")).is_none());
}

#[test]
fn end_to_end_cycle_is_rejected() {
    let a = pkg("a", &["b"], &[]);
    let b = pkg("b", &[], &["a"]);
    let mut graph = DependencyGraph::new(PackageTarget::X8664Linux);
    let first = graph.extend(&a, true).unwrap();
    assert_eq!(first, ExtendOutcome { nodes_touched: 2, edges_added: 1, edges_rejected: 0 });
    let second = graph.extend(&b, true).unwrap();
    assert_eq!(second, ExtendOutcome { nodes_touched: 1, edges_added: 0, edges_rejected: 1 });
    assert_eq!(graph.stats(), GraphStats { node_count: 2, edge_count: 1 });
    assert!(graph.has_edge(&short("core", "a"), &short("core", "b")));
    assert!(!graph.has_edge(&short("core", "b"), &short("core", "a")));
}

#[test]
fn a_package_that_depends_on_itself_is_rejected() {
    let mut graph = DependencyGraph::new(PackageTarget::X8664Linux);
    let outcome = graph.extend(&pkg("a", &["a"], &[]), false).unwrap();
    assert_eq!(outcome, ExtendOutcome { nodes_touched: 1, edges_added: 0, edges_rejected: 1 });
    assert_eq!(graph.stats(), GraphStats { node_count: 1, edge_count: 0 });
}

#[test]
fn a_long_cycle_is_rejected_at_its_last_edge() {
    let mut graph = DependencyGraph::new(PackageTarget::X8664Linux);
    for (name, dep) in [("a", "b"), ("b", "c"), ("c", "d")] {
        let outcome = graph.extend(&pkg(name, &[dep], &[]), false).unwrap();
        assert_eq!(outcome.edges_rejected, 0);
    }
    let outcome = graph.extend(&pkg("d", &["a", "e"], &[]), false).unwrap();
    assert_eq!(outcome, ExtendOutcome { nodes_touched: 2, edges_added: 1, edges_rejected: 1 });
    assert_eq!(graph.stats(), GraphStats { node_count: 5, edge_count: 4 });
    assert!(!graph.depends_on(&short("core", "d"), &short("core", "a")));
    assert!(graph.depends_on(&short("core", "a"), &short("core", "e")));
    assert!(graph.depends_on(&short("core", "a"), &short("core", "a")));
    assert!(!graph.depends_on(&short("core", "a"), &short("core", "nothing")));
    let order = names(&graph.build_order());
    assert_eq!(order, vec!["core/e", "core/d", "core/c", "core/b", "core/a"]);
}

#[test]
fn the_same_record_twice_changes_no_count() {
    let mut graph = DependencyGraph::new(PackageTarget::X8664Linux);
    let batch = vec![pkg("a", &["b", "c"], &["d"]), pkg("b", &["c"], &[]), pkg("c", &[], &["a"])];
    for record in &batch {
        graph.extend(record, true).unwrap();
    }
    let once = graph.stats();
    assert_eq!(once, GraphStats { node_count: 4, edge_count: 4 });
    let mut rejected = 0;
    for record in &batch {
        let outcome = graph.extend(record, true).unwrap();
        assert_eq!(outcome.edges_added, 0);
        assert_eq!(outcome.nodes_touched, 1);
        rejected += outcome.edges_rejected;
    }
    assert_eq!(rejected, 1);
    assert_eq!(graph.stats(), once);
}

#[test]
fn a_dependency_named_twice_gives_one_edge_of_each_kind() {
    let mut graph = DependencyGraph::new(PackageTarget::X8664Linux);
    let outcome = graph.extend(&pkg("a", &["b", "b"], &["b", "b"]), true).unwrap();
    assert_eq!(outcome, ExtendOutcome { nodes_touched: 2, edges_added: 2, edges_rejected: 0 });
    let (a, b) = (short("core", "a"), short("core", "b"));
    assert!(graph.has_edge_of(&a, &b, DependencyKind::Runtime));
    assert!(graph.has_edge_of(&a, &b, DependencyKind::Build));
    assert!(!graph.has_edge_of(&b, &a, DependencyKind::Runtime));

    let mut other = DependencyGraph::new(PackageTarget::X8664Linux);
    let outcome = other.extend(&pkg("a", &["b", "b"], &["b"]), false).unwrap();
    assert_eq!(outcome, ExtendOutcome { nodes_touched: 2, edges_added: 1, edges_rejected: 0 });
    assert!(other.has_edge_of(&a, &b, DependencyKind::Runtime));
    assert!(!other.has_edge_of(&a, &b, DependencyKind::Build));
    assert!(other.has_edge(&a, &b));
    assert!(!other.has_edge_of(&a, &short("core", "zzz"), DependencyKind::Runtime));
}

#[test]
fn a_cycle_is_rejected_whatever_the_kinds_of_its_edges() {
    let mut graph = DependencyGraph::new(PackageTarget::X8664Linux);
    graph.extend(&pkg("a", &[], &["b"]), true).unwrap();
    let outcome = graph.extend(&pkg("b", &["a"], &["a"]), true).unwrap();
    assert_eq!(outcome, ExtendOutcome { nodes_touched: 1, edges_added: 0, edges_rejected: 2 });
    assert_eq!(graph.stats(), GraphStats { node_count: 2, edge_count: 1 });
}

#[test]
fn the_higher_version_wins_in_rising_order() {
    let mut graph = DependencyGraph::new(PackageTarget::X8664Linux);
    graph.extend(&linux(full("core", "a", "1.0", "20200101"), vec![], vec![]), false).unwrap();
    graph.extend(&linux(full("core", "a", "2.0", "20200202"), vec![], vec![]), false).unwrap();
    let node = graph.node(&short("core", "a")).unwrap();
    assert_eq!(node.ident, full("core", "a", "2.0", "20200202"));
    assert_eq!(graph.node_count(), 1);
}

#[test]
fn the_higher_version_wins_in_falling_order() {
    let mut graph = DependencyGraph::new(PackageTarget::X8664Linux);
    graph.extend(&linux(full("core", "a", "2.0", "20200202"), vec![], vec![]), false).unwrap();
    graph.extend(&linux(full("core", "a", "1.0", "20200101"), vec![], vec![]), false).unwrap();
    let node = graph.node(&short("core", "a")).unwrap();
    assert_eq!(node.ident, full("core", "a", "2.0", "20200202"));
    assert_eq!(graph.node_count(), 1);
}

#[test]
fn versions_are_compared_by_number_not_by_letter() {
    let mut graph = DependencyGraph::new(PackageTarget::X8664Linux);
    graph.extend(&linux(full("core", "a", "1.10.0", "1"), vec![], vec![]), false).unwrap();
    graph.extend(&linux(full("core", "a", "1.9.0", "2"), vec![], vec![]), false).unwrap();
    assert_eq!(graph.node(&short("core", "a")).unwrap().ident, full("core", "a", "1.10.0", "1"));
}

#[test]
fn with_equal_versions_the_record_seen_last_wins() {
    let mut graph = DependencyGraph::new(PackageTarget::X8664Linux);
    graph.extend(&linux(full("core", "a", "1.0", "20200202"), vec![], vec![]), false).unwrap();
    graph.extend(&linux(full("core", "a", "1.0", "20200101"), vec![], vec![]), false).unwrap();
    assert_eq!(graph.node(&short("core", "a")).unwrap().ident, full("core", "a", "1.0", "20200101"));
}

#[test]
fn build_deps_are_left_out_unless_asked_for() {
    let record = pkg("a", &["b"], &["c", "b"]);
    let mut graph = DependencyGraph::new(PackageTarget::X8664Linux);
    let without = graph.extend(&record, false).unwrap();
    assert_eq!(without, ExtendOutcome { nodes_touched: 2, edges_added: 1, edges_rejected: 0 });
    assert!(graph.node(&short("core", "c")).is_none());
    assert!(!graph.has_edge(&short("core", "a"), &short("core", "c")));
    let with = graph.extend(&record, true).unwrap();
    assert_eq!(with, ExtendOutcome { nodes_touched: 2, edges_added: 2, edges_rejected: 0 });
    assert!(graph.has_edge(&short("core", "a"), &short("core", "c")));
    assert!(graph.has_edge_of(&short("core", "a"), &short("core", "b"), DependencyKind::Build));
    assert_eq!(graph.stats(), GraphStats { node_count: 3, edge_count: 3 });
    let again = graph.extend(&record, true).unwrap();
    assert_eq!(again, ExtendOutcome { nodes_touched: 1, edges_added: 0, edges_rejected: 0 });

    let mut at_once = DependencyGraph::new(PackageTarget::X8664Linux);
    at_once.extend(&record, true).unwrap();
    assert_eq!(at_once.stats(), graph.stats());
    assert_eq!(names(&at_once.build_order()), names(&graph.build_order()));
}

#[test]
fn malformed_records_are_turned_away_and_change_nothing() {
    let mut graph = DependencyGraph::new(PackageTarget::X8664Linux);
    graph.extend(&pkg("a", &["b"], &[]), false).unwrap();
    let before = graph.stats();

    let mut wrong = pkg("x", &[], &[]);
    wrong.target = "sparc-solaris".to_string();
    assert_eq!(graph.extend(&wrong, true), Err(RecordError::UnknownTarget));

    let mut wrong = pkg("x", &[], &[]);
    wrong.target = "x86_64-windows".to_string();
    assert_eq!(graph.extend(&wrong, true), Err(RecordError::TargetMismatch));

    let mut wrong = pkg("x", &[], &[]);
    wrong.ident.origin = String::new();
    assert_eq!(graph.extend(&wrong, true), Err(RecordError::InvalidIdent));

    let mut wrong = pkg("x", &[], &[]);
    wrong.ident.name = "a/b".to_string();
    assert_eq!(graph.extend(&wrong, true), Err(RecordError::InvalidIdent));

    let mut wrong = pkg("x", &[], &[]);
    wrong.ident.release = None;
    assert_eq!(graph.extend(&wrong, true), Err(RecordError::UnqualifiedIdent));

    let mut wrong = pkg("x", &[], &[]);
    wrong.ident.version = None;
    assert_eq!(graph.extend(&wrong, true), Err(RecordError::InvalidIdent));

    let wrong = pkg("x", &["good", ""], &[]);
    assert_eq!(graph.extend(&wrong, true), Err(RecordError::InvalidDependency));

    let wrong = pkg("x", &[], &[""]);
    assert_eq!(graph.extend(&wrong, false), Err(RecordError::InvalidDependency));

    assert_eq!(graph.stats(), before);
    assert!(graph.node(&short("core", "x")).is_none());
    assert!(graph.node(&short("core", "good")).is_none());
}

#[test]
fn unresolved_lists_the_packages_known_only_as_dependencies() {
    let mut graph = DependencyGraph::new(PackageTarget::X8664Linux);
    assert!(graph.unresolved().is_empty());
    graph.extend(&pkg("a", &["b", "c"], &["d"]), false).unwrap();
    assert_eq!(names(&graph.unresolved()), vec!["core/b", "core/c"]);
    graph.extend(&pkg("c", &["d"], &[]), false).unwrap();
    assert_eq!(names(&graph.unresolved()), vec!["core/b", "core/d"]);
    graph.extend(&pkg("b", &[], &[]), false).unwrap();
    graph.extend(&pkg("d", &[], &[]), false).unwrap();
    assert!(graph.unresolved().is_empty());
}

#[test]
fn nodes_and_edges_can_be_listed() {
    let mut graph = DependencyGraph::new(PackageTarget::X8664Linux);
    graph.extend(&pkg("a", &["b", "c"], &[]), false).unwrap();
    graph.extend(&pkg("c", &["b", "a"], &[]), false).unwrap();
    let listed: Vec<String> = graph.nodes().iter().map(|n| n.ident.name.clone()).collect();
    assert_eq!(listed, vec!["a", "b", "c"]);
    assert_eq!(graph.nodes()[0].resolved, true);
    assert_eq!(graph.nodes()[1].resolved, false);
    let run = |consumer, dependency| Edge { consumer, dependency, kind: DependencyKind::Runtime };
    assert_eq!(graph.edges(), &vec![run(0, 1), run(0, 2), run(2, 1)]);
}

#[test]
fn a_large_catalogue_is_ingested_and_ordered() {
    let count = 1500;
    let name = |i: usize| format!("pkg{:05}", i);
    let mut graph = DependencyGraph::new(PackageTarget::X8664Linux);
    let mut rejected = 0;
    for i in 0..count {
        let mut deps = Vec::new();
        if i >= 1 {
            deps.push(short("core", &name(i - 1)));
        }
        if i >= 7 {
            deps.push(short("core", &name(i - 7)));
        }
        if i + 3 < count {
            deps.push(short("core", &name(i + 3)));
        }
        let record = linux(full("core", &name(i), "1.0", "1"), deps, vec![]);
        rejected += graph.extend(&record, false).unwrap().edges_rejected;
    }
    assert_eq!(graph.node_count(), count);
    assert!(rejected > 0);
    assert_eq!(graph.edge_count() + rejected, (count - 1) + (count - 7) + (count - 3));
    let order = graph.build_order();
    assert_eq!(order.len(), count);
    let position: std::collections::HashMap<String, usize> =
        order.iter().enumerate().map(|(at, id)| (id.name.clone(), at)).collect();
    assert_eq!(position.len(), count);
    for edge in graph.edges() {
        let consumer = &graph.nodes()[edge.consumer].ident.name;
        let dep = &graph.nodes()[edge.dependency].ident.name;
        assert!(position[dep] < position[consumer]);
    }
    let impact = graph.impacted_by(&short("core", &name(0)));
    assert!(impact.len() < count);
    for id in &impact {
        assert!(graph.depends_on(id, &short("core", &name(0))));
    }
}

#[test]
fn impact_of_the_end_of_a_chain_is_all_before_it() {
    let mut graph = DependencyGraph::new(PackageTarget::X8664Linux);
    graph.extend(&pkg("a", &["b"], &[]), false).unwrap();
    graph.extend(&pkg("b", &["c"], &[]), false).unwrap();
    graph.extend(&pkg("c", &[], &[]), false).unwrap();
    graph.extend(&pkg("d", &[], &[]), false).unwrap();
    assert_eq!(names(&graph.impacted_by(&short("core", "c"))), vec!["core/a", "core/b"]);
    assert_eq!(names(&graph.impacted_by(&short("core", "b"))), vec!["core/a"]);
    assert!(graph.impacted_by(&short("core", "a")).is_empty());
    assert!(graph.impacted_by(&short("core", "d")).is_empty());
    assert!(graph.impacted_by(&short("core", "unknown")).is_empty());
}

#[test]
fn impact_names_each_package_once() {
    let mut graph = DependencyGraph::new(PackageTarget::X8664Linux);
    graph.extend(&pkg("top", &["left", "right"], &[]), false).unwrap();
    graph.extend(&pkg("left", &["base"], &[]), false).unwrap();
    graph.extend(&pkg("right", &["base"], &[]), false).unwrap();
    let impact = graph.impacted_by(&full("core", "base", "9.9", "1"));
    assert_eq!(names(&impact), vec!["core/top", "core/left", "core/right"]);
    assert_eq!(impact[0], full("core", "top", "1.0.0", "20200101000000"));
}

#[test]
fn build_order_puts_dependencies_first_and_breaks_ties_by_origin_then_name() {
    let mut graph = DependencyGraph::new(PackageTarget::X8664Linux);
    let rec = |origin: &str, name: &str, deps: Vec<PackageIdent>| {
        linux(full(origin, name, "1.0", "1"), deps, vec![])
    };
    graph.extend(&rec("zeta", "app", vec![short("core", "lib"), short("acme", "zlib")]), false).unwrap();
    graph.extend(&rec("core", "tool", vec![]), false).unwrap();
    graph.extend(&rec("acme", "alone", vec![]), false).unwrap();
    graph.extend(&rec("core", "lib", vec![short("core", "base")]), false).unwrap();
    let order = names(&graph.build_order());
    assert_eq!(
        order,
        vec!["acme/alone", "acme/zlib", "core/base", "core/lib", "core/tool", "zeta/app"]
    );
    assert_eq!(order, names(&graph.build_order()));
}

#[test]
fn build_order_holds_a_package_back_until_its_dependencies_are_out() {
    let mut graph = DependencyGraph::new(PackageTarget::X8664Linux);
    graph.extend(&pkg("a", &["z"], &[]), false).unwrap();
    graph.extend(&pkg("b", &[], &[]), false).unwrap();
    graph.extend(&pkg("z", &["y"], &[]), false).unwrap();
    assert_eq!(names(&graph.build_order()), vec!["core/b", "core/y", "core/z", "core/a"]);
}
