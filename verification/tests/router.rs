use builder_core::ident::PackageIdent;
use builder_core::record::PackageRecord;
use builder_core::target::{PackageTarget, UnknownTarget};
use builder_core::target_graph::{TargetGraph, TargetGraphStats};

fn full(origin: &str, name: &str, version: &str, release: &str) -> PackageIdent {
    PackageIdent {
        origin: origin.to_string(),
        name: name.to_string(),
        version: Some(version.to_string()),
        release: Some(release.to_string()),
    }
}

fn short(origin: &str, name: &str) -> PackageIdent {
    PackageIdent { origin: origin.to_string(), name: name.to_string(), version: None, release: None }
}

fn record(target: &str, name: &str, deps: &[&str], build_deps: &[&str]) -> PackageRecord {
    PackageRecord {
        target: target.to_string(),
        ident: full("core", name, "1.0.0", "20200101000000"),
        deps: deps.iter().map(|d| short("core", d)).collect(),
        build_deps: build_deps.iter().map(|d| short("core", d)).collect(),
    }
}

fn stats(target: PackageTarget, node_count: usize, edge_count: usize) -> TargetGraphStats {
    TargetGraphStats { target, node_count, edge_count }
}

#[test]
fn target_names_are_read_exactly() {
    assert_eq!(PackageTarget::parse("x86_64-linux"), Ok(PackageTarget::X8664Linux));
    assert_eq!(PackageTarget::parse("x86_64-linux-kernel2"), Ok(PackageTarget::X8664LinuxKernel2));
    assert_eq!(PackageTarget::parse("x86_64-windows"), Ok(PackageTarget::X8664Windows));
    assert_eq!(PackageTarget::parse("x86_64-linux "), Err(UnknownTarget));
    assert_eq!(PackageTarget::parse("X86_64-LINUX"), Err(UnknownTarget));
    assert_eq!(PackageTarget::parse("x86_64"), Err(UnknownTarget));
    assert_eq!(PackageTarget::parse(""), Err(UnknownTarget));
    for target in PackageTarget::all() {
        assert_eq!(PackageTarget::parse(target.as_str()), Ok(target));
    }
    assert_eq!(PackageTarget::all().len(), 3);
}

#[test]
fn build_reports_every_target_even_without_records() {
    let mut router = TargetGraph::new();
    let report = router.build(&[], true);
    assert_eq!(
        report,
        vec![
            stats(PackageTarget::X8664Linux, 0, 0),
            stats(PackageTarget::X8664LinuxKernel2, 0, 0),
            stats(PackageTarget::X8664Windows, 0, 0),
        ]
    );
}

#[test]
fn build_end_to_end_scenario() {
    let a = record("x86_64-linux", "a", &["b"], &[]);
    let b = record("x86_64-linux", "b", &[], &["a"]);
    let mut router = TargetGraph::new();
    let report = router.build(&[a, b], true);
    assert_eq!(report[0], stats(PackageTarget::X8664Linux, 2, 1));
    assert_eq!(report[0].target.as_str(), "x86_64-linux");
    assert_eq!(report[1], stats(PackageTarget::X8664LinuxKernel2, 0, 0));
    assert_eq!(report[2], stats(PackageTarget::X8664Windows, 0, 0));
    let graph = router.graph("x86_64-linux").unwrap();
    assert!(graph.has_edge(&short("core", "a"), &short("core", "b")));
    assert!(!graph.has_edge(&short("core", "b"), &short("core", "a")));
}

#[test]
fn build_keeps_targets_apart() {
    let mut router = TargetGraph::new();
    let report = router.build(
        &[
            record("x86_64-linux", "a", &["b"], &[]),
            record("x86_64-windows", "b", &["c", "d"], &[]),
            record("x86_64-windows", "a", &[], &[]),
        ],
        false,
    );
    assert_eq!(
        report,
        vec![
            stats(PackageTarget::X8664Linux, 2, 1),
            stats(PackageTarget::X8664LinuxKernel2, 0, 0),
            stats(PackageTarget::X8664Windows, 4, 2),
        ]
    );
    let windows = router.graph("x86_64-windows").unwrap();
    assert!(!windows.has_edge(&short("core", "a"), &short("core", "b")));
    assert!(windows.has_edge(&short("core", "b"), &short("core", "c")));
    let linux = router.graph("x86_64-linux").unwrap();
    assert!(linux.has_edge(&short("core", "a"), &short("core", "b")));
    assert!(!linux.has_edge(&short("core", "b"), &short("core", "c")));
    assert!(linux.node(&short("core", "c")).is_none());
}

#[test]
fn build_passes_over_records_it_cannot_route_and_goes_on() {
    let mut broken = record("x86_64-linux", "broken", &[], &[]);
    broken.ident.name = String::new();
    let mut router = TargetGraph::new();
    let report = router.build(
        &[
            record("mips-irix", "a", &["b"], &[]),
            broken,
            record("", "c", &[], &[]),
            record("x86_64-linux-kernel2", "d", &["e"], &[]),
        ],
        true,
    );
    assert_eq!(
        report,
        vec![
            stats(PackageTarget::X8664Linux, 0, 0),
            stats(PackageTarget::X8664LinuxKernel2, 2, 1),
            stats(PackageTarget::X8664Windows, 0, 0),
        ]
    );
}

#[test]
fn building_the_same_batch_twice_gives_the_same_report() {
    let batch = vec![
        record("x86_64-linux", "a", &["b", "c"], &["d"]),
        record("x86_64-linux", "b", &["c"], &[]),
        record("x86_64-linux", "c", &[], &["a"]),
        record("x86_64-windows", "a", &["b"], &[]),
    ];
    let mut router = TargetGraph::new();
    let once = router.build(&batch, true);
    let twice = router.build(&batch, true);
    assert_eq!(once, twice);
    assert_eq!(once[0], stats(PackageTarget::X8664Linux, 4, 4));
    assert_eq!(once[2], stats(PackageTarget::X8664Windows, 2, 1));
}

#[test]
fn build_toggle_adds_the_build_edges_later() {
    let batch = vec![record("x86_64-linux", "a", &["b"], &["c"])];
    let mut router = TargetGraph::new();
    assert_eq!(router.build(&batch, false)[0], stats(PackageTarget::X8664Linux, 2, 1));
    assert_eq!(router.build(&batch, true)[0], stats(PackageTarget::X8664Linux, 3, 2));
    assert_eq!(router.build(&batch, false)[0], stats(PackageTarget::X8664Linux, 3, 2));
}

#[test]
fn graph_lookup_fails_softly() {
    let router = TargetGraph::new();
    assert!(router.graph("x86_64-linux").is_some());
    assert!(router.graph("x86_64-linux-kernel2").is_some());
    assert!(router.graph("x86_64-windows").is_some());
    assert!(router.graph("x86_64-darwin").is_none());
    assert!(router.graph("").is_none());
    assert_eq!(router.graph("x86_64-windows").unwrap().target(), PackageTarget::X8664Windows);
}

#[test]
fn graph_mut_hands_out_the_graph_to_change() {
    let mut router = TargetGraph::new();
    assert!(router.graph_mut("amiga").is_none());
    {
        let graph = router.graph_mut("x86_64-windows").unwrap();
        graph.extend(&record("x86_64-windows", "a", &["b"], &[]), false).unwrap();
    }
    assert_eq!(router.graph("x86_64-windows").unwrap().node_count(), 2);
    assert_eq!(router.graph("x86_64-linux").unwrap().node_count(), 0);
    let report = router.build(&[], false);
    assert_eq!(report[2], stats(PackageTarget::X8664Windows, 2, 1));
}

#[test]
fn a_router_for_fewer_targets_passes_over_the_others() {
    let mut router = TargetGraph::with_targets(&[
        PackageTarget::X8664Windows,
        PackageTarget::X8664Linux,
        PackageTarget::X8664Windows,
    ]);
    assert!(router.graph("x86_64-linux-kernel2").is_none());
    let report = router.build(
        &[
            record("x86_64-linux-kernel2", "a", &["b"], &[]),
            record("x86_64-linux", "a", &["b"], &[]),
        ],
        false,
    );
    assert_eq!(
        report,
        vec![stats(PackageTarget::X8664Windows, 0, 0), stats(PackageTarget::X8664Linux, 2, 1)]
    );
}

#[test]
fn a_default_router_has_no_graph() {
    let mut router = TargetGraph::default();
    assert!(router.graph("x86_64-linux").is_none());
    assert!(router.build(&[record("x86_64-linux", "a", &[], &[])], true).is_empty());
}
