//! What holds of the graph whatever is ingested, stated over the model and proved.

use vstd::prelude::*;
use crate::ident::IdentView;
use crate::model::{
    grown_from, lemma_ensure, lemma_index_of_key, lemma_link, lemma_link_all, lemma_offer,
    lemma_offer_all, lemma_touch, lemma_wanted_valid, EdgeView, GraphView, NodeView,
};
use crate::reach::{
    acyclic, is_walk, lemma_insert_closes_cycle, lemma_reaches_monotone, lemma_walk_reaches,
};
use crate::record::{all_declared_valid, declared, DeclaredView, DependencyKind, RecordView};
use crate::target::target_of;
use crate::target_graph::stats_of;
use crate::version::{
    compare_versions, lemma_at_least_transitive, lemma_compare_reversed, lemma_compare_same,
    version_at_least, Comparison,
};

verus! {

/// A walk along one or more edges of a well-formed graph never ends where it began: no
/// package depends on itself, directly or through others.
pub proof fn law_no_package_depends_on_itself(g: GraphView, p: Seq<int>)
    requires
        g.wf(),
        is_walk(g.relation(), p),
        p.len() >= 2,
    ensures
        p[0] != p.last(),
{
    assert(g.relation().contains((p[0], p[0int + 1])));
    lemma_walk_reaches(g.relation(), p, 1, p.len() - 1);
}

/// Whatever records a graph is offered, in whatever order, it holds no cycle afterwards.
pub proof fn law_no_cycle_after_any_batch(
    g: GraphView,
    records: Seq<RecordView>,
    include_build_deps: bool,
)
    requires
        g.wf(),
    ensures
        g.offer_all(records, include_build_deps).wf(),
        acyclic(g.offer_all(records, include_build_deps).relation()),
{
    lemma_offer_all(g, records, include_build_deps);
}

/// A dependency is turned down only where its edge would in fact have closed a cycle.
pub proof fn law_rejected_edge_would_close_cycle(g: GraphView, consumer: int, dep: DeclaredView)
    requires
        g.link_rejected(consumer, dep),
    ensures
        !acyclic(
            g.ensure(dep.origin, dep.name).relation().insert(
                (consumer, g.ensure(dep.origin, dep.name).index_of(dep.origin, dep.name)),
            ),
        ),
{
    let h = g.ensure(dep.origin, dep.name);
    lemma_insert_closes_cycle(h.relation(), consumer, h.index_of(dep.origin, dep.name));
}

/// Records for other platforms leave a graph as it was.
pub proof fn law_other_targets_leave_graph_alone(
    g: GraphView,
    records: Seq<RecordView>,
    include_build_deps: bool,
)
    requires
        forall|k: int|
            0 <= k < records.len() ==> target_of((#[trigger] records[k]).target) != Some(g.target),
    ensures
        g.offer_all(records, include_build_deps) == g,
    decreases records.len(),
{
    if records.len() > 0 {
        let front = records.drop_last();
        assert forall|k: int| 0 <= k < front.len() implies target_of((#[trigger] front[k]).target)
            != Some(g.target) by {
            assert(front[k] == records[k]);
        }
        law_other_targets_leave_graph_alone(g, front, include_build_deps);
        assert(records.last() == records[records.len() - 1]);
    }
}

/// The version that a node carries after a record of its package was seen is not lower
/// than the record's.
pub proof fn law_stored_version_not_below_record(g: GraphView, id: IdentView)
    requires
        g.wf(),
        id.valid(),
        id.fully_qualified(),
    ensures
        ({
            let h = g.touch(id);
            let node = h.nodes[h.index_of(id.origin, id.name)];
            node.resolved && node.ident.version is Some && version_at_least(
                node.ident.version->0,
                id.version->0,
            )
        }),
{
    lemma_touch(g, id);
    let h = g.touch(id);
    let i = h.index_of(id.origin, id.name);
    lemma_compare_same(id.version->0);
    if g.has_node(id.origin, id.name) {
        let old = g.nodes[i];
        assert(old.wf());
        if !GraphView::supersedes(id, old) {
            lemma_compare_reversed(id.version->0, old.ident.version->0);
        }
    }
}

/// Seeing a record never lowers the version that a resolved node carries.
pub proof fn law_stored_version_never_lowered(g: GraphView, id: IdentView, i: int)
    requires
        g.wf(),
        id.valid(),
        id.fully_qualified(),
        0 <= i < g.nodes.len(),
        g.nodes[i].resolved,
    ensures
        g.touch(id).nodes[i].resolved,
        g.touch(id).nodes[i].ident.version is Some,
        version_at_least(g.touch(id).nodes[i].ident.version->0, g.nodes[i].ident.version->0),
{
    lemma_touch(g, id);
    assert(g.nodes[i].wf());
    lemma_compare_same(g.nodes[i].ident.version->0);
    if g.has_node(id.origin, id.name) {
        let j = g.index_of(id.origin, id.name);
        assert(g.nodes[j].wf());
    }
}

/// The dependency `dep` of node `consumer` is taken care of: the package has a node, and
/// the edge of that kind to it is there or would close a cycle.
pub open spec fn linked(g: GraphView, consumer: int, dep: DeclaredView) -> bool {
    &&& g.has_node(dep.origin, dep.name)
    &&& g.has_edge_of(consumer, g.index_of(dep.origin, dep.name), dep.kind) || g.would_cycle(
        consumer,
        g.index_of(dep.origin, dep.name),
    )
}

/// Every dependency in `deps` of node `consumer` is taken care of.
pub open spec fn all_linked(g: GraphView, consumer: int, deps: Seq<DeclaredView>) -> bool {
    forall|i: int| 0 <= i < deps.len() ==> linked(g, consumer, #[trigger] deps[i])
}

/// The record has nothing more to add to the graph's nodes and edges: its package has a
/// node, and all its dependencies are taken care of.
pub open spec fn settled(g: GraphView, record: RecordView, include_build_deps: bool) -> bool {
    record.verdict_for(g.target) is Ok ==> {
        &&& g.has_node(record.ident.origin, record.ident.name)
        &&& all_linked(
            g,
            g.index_of(record.ident.origin, record.ident.name),
            record.wanted(include_build_deps),
        )
    }
}

proof fn lemma_relation_grows(g: GraphView, h: GraphView)
    requires
        grown_from(h, g),
    ensures
        g.relation().subset_of(h.relation()),
{
    assert forall|p: (int, int)| g.relation().contains(p) implies h.relation().contains(p) by {
        let kind = if g.has_edge_of(p.0, p.1, DependencyKind::Runtime) {
            DependencyKind::Runtime
        } else {
            DependencyKind::Build
        };
        let e = EdgeView { consumer: p.0, dependency: p.1, kind: kind };
        let k = choose|k: int| 0 <= k < g.edges.len() && g.edges[k] == e;
        assert(h.edges[k] == e);
    }
}

/// A node keeps its index while the graph grows.
proof fn lemma_index_survives(g: GraphView, h: GraphView, origin: Seq<char>, name: Seq<char>)
    requires
        g.wf(),
        h.wf(),
        grown_from(h, g),
        g.has_node(origin, name),
    ensures
        h.has_node(origin, name),
        h.index_of(origin, name) == g.index_of(origin, name),
        0 <= g.index_of(origin, name) < g.nodes.len(),
{
    let d = g.index_of(origin, name);
    assert(g.has_key(d, origin, name));
    assert(h.nodes[d].ident.same_package(g.nodes[d].ident));
    lemma_index_of_key(h, origin, name, d);
}

proof fn lemma_linked_survives(g: GraphView, h: GraphView, consumer: int, dep: DeclaredView)
    requires
        g.wf(),
        h.wf(),
        grown_from(h, g),
        linked(g, consumer, dep),
    ensures
        linked(h, consumer, dep),
{
    lemma_index_survives(g, h, dep.origin, dep.name);
    let d = g.index_of(dep.origin, dep.name);
    if g.has_edge_of(consumer, d, dep.kind) {
        let e = EdgeView { consumer: consumer, dependency: d, kind: dep.kind };
        let k = choose|k: int| 0 <= k < g.edges.len() && g.edges[k] == e;
        assert(h.edges[k] == e);
    } else {
        lemma_relation_grows(g, h);
        lemma_reaches_monotone(g.relation(), h.relation(), d, consumer);
    }
}

proof fn lemma_all_linked_survives(
    g: GraphView,
    h: GraphView,
    consumer: int,
    deps: Seq<DeclaredView>,
)
    requires
        g.wf(),
        h.wf(),
        grown_from(h, g),
        all_linked(g, consumer, deps),
    ensures
        all_linked(h, consumer, deps),
{
    assert forall|i: int| 0 <= i < deps.len() implies linked(h, consumer, #[trigger] deps[i]) by {
        lemma_linked_survives(g, h, consumer, deps[i]);
    }
}

proof fn lemma_linked_after_link(g: GraphView, consumer: int, dep: DeclaredView)
    requires
        g.wf(),
        0 <= consumer < g.nodes.len(),
        dep.valid(),
    ensures
        linked(g.link(consumer, dep), consumer, dep),
{
    lemma_ensure(g, dep.origin, dep.name);
    lemma_link(g, consumer, dep);
    let h = g.ensure(dep.origin, dep.name);
    let d = h.index_of(dep.origin, dep.name);
    let r = g.link(consumer, dep);
    assert(h.has_key(d, dep.origin, dep.name));
    assert(r.has_key(d, dep.origin, dep.name));
    lemma_index_of_key(r, dep.origin, dep.name, d);
    if !(h.has_edge_of(consumer, d, dep.kind) || h.would_cycle(consumer, d)) {
        assert(r.edges[h.edges.len() as int] == (EdgeView {
            consumer: consumer,
            dependency: d,
            kind: dep.kind,
        }));
    }
}

proof fn lemma_all_linked_after_link_all(g: GraphView, consumer: int, deps: Seq<DeclaredView>)
    requires
        g.wf(),
        0 <= consumer < g.nodes.len(),
        all_declared_valid(deps),
    ensures
        all_linked(g.link_all(consumer, deps), consumer, deps),
    decreases deps.len(),
{
    if deps.len() > 0 {
        let front = deps.drop_last();
        let last = deps.last();
        assert forall|k: int| 0 <= k < front.len() implies (#[trigger] front[k]).valid() by {
            assert(front[k] == deps[k]);
        }
        assert(last == deps[deps.len() - 1]);
        assert(last.valid());
        lemma_all_linked_after_link_all(g, consumer, front);
        lemma_link_all(g, consumer, front);
        let h = g.link_all(consumer, front);
        lemma_link(h, consumer, last);
        let r = h.link(consumer, last);
        lemma_linked_after_link(h, consumer, last);
        assert(grown_from(r, h)) by {
            assert forall|i: int| 0 <= i < h.nodes.len() implies (
            #[trigger] r.nodes[i]).ident.same_package(h.nodes[i].ident) by {
                assert(r.nodes[i] == h.nodes[i]);
            }
        }
        assert forall|i: int| 0 <= i < deps.len() implies linked(r, consumer, #[trigger] deps[i]) by {
            if i < front.len() {
                assert(front[i] == deps[i]);
                lemma_linked_survives(h, r, consumer, deps[i]);
            }
        }
    }
}

proof fn lemma_link_all_linked_changes_nothing(g: GraphView, consumer: int, deps: Seq<DeclaredView>)
    requires
        all_linked(g, consumer, deps),
    ensures
        g.link_all(consumer, deps) == g,
    decreases deps.len(),
{
    if deps.len() > 0 {
        let front = deps.drop_last();
        assert forall|i: int| 0 <= i < front.len() implies linked(g, consumer, #[trigger] front[i]) by {
            assert(front[i] == deps[i]);
        }
        lemma_link_all_linked_changes_nothing(g, consumer, front);
        assert(deps.last() == deps[deps.len() - 1]);
        assert(linked(g, consumer, deps.last()));
    }
}

proof fn lemma_link_all_in_two_parts(
    g: GraphView,
    consumer: int,
    first: Seq<DeclaredView>,
    second: Seq<DeclaredView>,
)
    ensures
        g.link_all(consumer, first + second) == g.link_all(consumer, first).link_all(
            consumer,
            second,
        ),
    decreases second.len(),
{
    if second.len() == 0 {
        assert(first + second =~= first);
    } else {
        lemma_link_all_in_two_parts(g, consumer, first, second.drop_last());
        assert((first + second).drop_last() =~= first + second.drop_last());
        assert((first + second).last() == second.last());
    }
}

/// Once a record was offered it is settled.
pub proof fn lemma_settled_after_offer(g: GraphView, record: RecordView, include_build_deps: bool)
    requires
        g.wf(),
    ensures
        settled(g.offer(record, include_build_deps), record, include_build_deps),
{
    if record.verdict_for(g.target) is Ok {
        let id = record.ident;
        let deps = record.wanted(include_build_deps);
        lemma_wanted_valid(record, include_build_deps);
        lemma_touch(g, id);
        let t = g.touch(id);
        let c = t.index_of(id.origin, id.name);
        lemma_link_all(t, c, deps);
        lemma_all_linked_after_link_all(t, c, deps);
        let h = t.link_all(c, deps);
        lemma_index_survives(t, h, id.origin, id.name);
    }
}

/// A settled record stays settled while the graph grows.
pub proof fn lemma_settled_survives(
    g: GraphView,
    h: GraphView,
    record: RecordView,
    include_build_deps: bool,
)
    requires
        g.wf(),
        h.wf(),
        grown_from(h, g),
        settled(g, record, include_build_deps),
    ensures
        settled(h, record, include_build_deps),
{
    if record.verdict_for(g.target) is Ok {
        let id = record.ident;
        lemma_index_survives(g, h, id.origin, id.name);
        lemma_all_linked_survives(
            g,
            h,
            g.index_of(id.origin, id.name),
            record.wanted(include_build_deps),
        );
    }
}

/// Offering a settled record adds neither node nor edge: at most the version that its
/// node carries changes.
pub proof fn lemma_offer_settled(g: GraphView, record: RecordView, include_build_deps: bool)
    requires
        g.wf(),
        settled(g, record, include_build_deps),
    ensures
        g.offer(record, include_build_deps) == g.touch(record.ident) || g.offer(
            record,
            include_build_deps,
        ) == g,
        g.offer(record, include_build_deps).nodes.len() == g.nodes.len(),
        g.offer(record, include_build_deps).edges == g.edges,
{
    if record.verdict_for(g.target) is Ok {
        let id = record.ident;
        let deps = record.wanted(include_build_deps);
        lemma_touch(g, id);
        let t = g.touch(id);
        let c = t.index_of(id.origin, id.name);
        assert(grown_from(t, g));
        lemma_all_linked_survives(g, t, c, deps);
        lemma_link_all_linked_changes_nothing(t, c, deps);
    }
}

proof fn lemma_all_settled_after_batch(
    g: GraphView,
    records: Seq<RecordView>,
    include_build_deps: bool,
)
    requires
        g.wf(),
    ensures
        forall|k: int|
            0 <= k < records.len() ==> settled(
                g.offer_all(records, include_build_deps),
                #[trigger] records[k],
                include_build_deps,
            ),
    decreases records.len(),
{
    if records.len() > 0 {
        let front = records.drop_last();
        lemma_all_settled_after_batch(g, front, include_build_deps);
        lemma_offer_all(g, front, include_build_deps);
        let h = g.offer_all(front, include_build_deps);
        lemma_offer(h, records.last(), include_build_deps);
        lemma_settled_after_offer(h, records.last(), include_build_deps);
        let r = h.offer(records.last(), include_build_deps);
        assert forall|k: int| 0 <= k < records.len() implies settled(
            r,
            #[trigger] records[k],
            include_build_deps,
        ) by {
            if k < front.len() {
                assert(front[k] == records[k]);
                lemma_settled_survives(h, r, records[k], include_build_deps);
            }
        }
    }
}

proof fn lemma_settled_batch_adds_nothing(
    g: GraphView,
    records: Seq<RecordView>,
    include_build_deps: bool,
)
    requires
        g.wf(),
        forall|k: int|
            0 <= k < records.len() ==> settled(g, #[trigger] records[k], include_build_deps),
    ensures
        g.offer_all(records, include_build_deps).nodes.len() == g.nodes.len(),
        g.offer_all(records, include_build_deps).edges == g.edges,
    decreases records.len(),
{
    if records.len() > 0 {
        let front = records.drop_last();
        assert forall|k: int| 0 <= k < front.len() implies settled(
            g,
            #[trigger] front[k],
            include_build_deps,
        ) by {
            assert(front[k] == records[k]);
        }
        lemma_settled_batch_adds_nothing(g, front, include_build_deps);
        lemma_offer_all(g, front, include_build_deps);
        let h = g.offer_all(front, include_build_deps);
        assert(records.last() == records[records.len() - 1]);
        lemma_settled_survives(g, h, records.last(), include_build_deps);
        lemma_offer_settled(h, records.last(), include_build_deps);
    }
}

/// Offering the same batch a second time adds neither node nor edge: the counts after the
/// second pass are those after the first.
pub proof fn law_same_batch_twice(g: GraphView, records: Seq<RecordView>, include_build_deps: bool)
    requires
        g.wf(),
    ensures
        ({
            let once = g.offer_all(records, include_build_deps);
            let twice = once.offer_all(records, include_build_deps);
            twice.nodes.len() == once.nodes.len() && twice.edges == once.edges
        }),
{
    lemma_offer_all(g, records, include_build_deps);
    lemma_all_settled_after_batch(g, records, include_build_deps);
    lemma_settled_batch_adds_nothing(
        g.offer_all(records, include_build_deps),
        records,
        include_build_deps,
    );
}

/// The edge that the dependency `dep` of node `consumer` calls for.
pub open spec fn edge_for(g: GraphView, consumer: int, dep: DeclaredView) -> EdgeView {
    EdgeView {
        consumer: consumer,
        dependency: g.index_of(dep.origin, dep.name),
        kind: dep.kind,
    }
}

/// Edge `k` of the graph is the edge that one of `deps` calls for: it leads from node
/// `consumer` to the node of that dependency and has its kind.
pub open spec fn edge_is_declared(g: GraphView, k: int, consumer: int, deps: Seq<DeclaredView>) -> bool {
    exists|i: int| 0 <= i < deps.len() && g.edges[k] == edge_for(g, consumer, #[trigger] deps[i])
}

proof fn lemma_new_edges_of_link_all(g: GraphView, consumer: int, deps: Seq<DeclaredView>, k: int)
    requires
        g.wf(),
        0 <= consumer < g.nodes.len(),
        all_declared_valid(deps),
        g.edges.len() <= k < g.link_all(consumer, deps).edges.len(),
    ensures
        edge_is_declared(g.link_all(consumer, deps), k, consumer, deps),
    decreases deps.len(),
{
    if deps.len() > 0 {
        let front = deps.drop_last();
        let last = deps.last();
        assert forall|m: int| 0 <= m < front.len() implies (#[trigger] front[m]).valid() by {
            assert(front[m] == deps[m]);
        }
        assert(last == deps[deps.len() - 1]);
        assert(last.valid());
        lemma_link_all(g, consumer, front);
        lemma_all_linked_after_link_all(g, consumer, front);
        let h = g.link_all(consumer, front);
        lemma_link(h, consumer, last);
        lemma_ensure(h, last.origin, last.name);
        let r = h.link(consumer, last);
        assert(grown_from(r, h)) by {
            assert forall|i: int| 0 <= i < h.nodes.len() implies (
            #[trigger] r.nodes[i]).ident.same_package(h.nodes[i].ident) by {
                assert(r.nodes[i] == h.nodes[i]);
            }
        }
        if k < h.edges.len() {
            lemma_new_edges_of_link_all(g, consumer, front, k);
            let i = choose|i: int|
                0 <= i < front.len() && h.edges[k] == edge_for(h, consumer, #[trigger] front[i]);
            assert(front[i] == deps[i]);
            assert(linked(h, consumer, front[i]));
            lemma_index_survives(h, r, deps[i].origin, deps[i].name);
            assert(r.edges[k] == h.edges[k]);
            assert(r.edges[k] == edge_for(r, consumer, deps[i]));
        } else {
            let e = h.ensure(last.origin, last.name);
            let d = e.index_of(last.origin, last.name);
            assert(e.has_key(d, last.origin, last.name));
            assert(r.has_key(d, last.origin, last.name));
            lemma_index_of_key(r, last.origin, last.name, d);
            assert(r.edges[k] == (EdgeView { consumer: consumer, dependency: d, kind: last.kind }));
            assert(r.edges[k] == edge_for(r, consumer, deps[deps.len() - 1]));
        }
    }
}

/// Every edge that the ingestion of a record adds leads from the record's package to one
/// of the dependencies that were asked for. Without the build-time dependencies these are
/// the run-time dependencies alone, so that no edge is added on account of a dependency
/// needed only to build.
pub proof fn law_added_edges_are_asked_for(
    g: GraphView,
    record: RecordView,
    include_build_deps: bool,
    k: int,
)
    requires
        g.wf(),
        record.verdict() is Ok,
        g.edges.len() <= k < g.extend(record, include_build_deps).edges.len(),
    ensures
        ({
            let h = g.extend(record, include_build_deps);
            edge_is_declared(
                h,
                k,
                h.index_of(record.ident.origin, record.ident.name),
                record.wanted(include_build_deps),
            )
        }),
{
    let id = record.ident;
    let deps = record.wanted(include_build_deps);
    lemma_wanted_valid(record, include_build_deps);
    lemma_touch(g, id);
    let t = g.touch(id);
    let c = t.index_of(id.origin, id.name);
    lemma_link_all(t, c, deps);
    lemma_new_edges_of_link_all(t, c, deps, k);
    lemma_index_survives(t, t.link_all(c, deps), id.origin, id.name);
}

/// Ingesting a record without its build-time dependencies adds run-time edges only.
pub proof fn law_without_build_deps_only_runtime_edges(g: GraphView, record: RecordView, k: int)
    requires
        g.wf(),
        record.verdict() is Ok,
        g.edges.len() <= k < g.extend(record, false).edges.len(),
    ensures
        g.extend(record, false).edges[k].kind == DependencyKind::Runtime,
{
    law_added_edges_are_asked_for(g, record, false, k);
}

/// The record with identifier `id` has left its mark on its node: the node carries the
/// record's version and release, or a version that the record does not supersede.
pub open spec fn absorbed(g: GraphView, id: IdentView) -> bool {
    &&& g.has_node(id.origin, id.name)
    &&& g.nodes[g.index_of(id.origin, id.name)] == (NodeView { ident: id, resolved: true })
        || !GraphView::supersedes(id, g.nodes[g.index_of(id.origin, id.name)])
}

proof fn lemma_absorbed_after_touch(g: GraphView, id: IdentView)
    requires
        g.wf(),
        id.valid(),
        id.fully_qualified(),
    ensures
        absorbed(g.touch(id), id),
{
    lemma_touch(g, id);
}

proof fn lemma_touch_absorbed(g: GraphView, id: IdentView)
    requires
        g.wf(),
        id.valid(),
        id.fully_qualified(),
        absorbed(g, id),
    ensures
        g.touch(id) == g,
{
    let i = g.index_of(id.origin, id.name);
    assert(g.has_key(i, id.origin, id.name));
    lemma_compare_same(id.version->0);
    if GraphView::supersedes(id, g.nodes[i]) {
        assert(g.nodes.update(i, NodeView { ident: id, resolved: true }) =~= g.nodes);
    }
}

/// Ingesting a record first without its build-time dependencies and then with them
/// leaves the graph that ingesting it with them at once would have left: the second pass
/// adds the edges that were missing and none twice.
pub proof fn law_build_deps_added_later(g: GraphView, record: RecordView)
    requires
        g.wf(),
    ensures
        g.offer(record, false).offer(record, true) == g.offer(record, true),
{
    if record.verdict_for(g.target) is Ok {
        let id = record.ident;
        lemma_wanted_valid(record, true);
        lemma_touch(g, id);
        lemma_absorbed_after_touch(g, id);
        let t = g.touch(id);
        let c = t.index_of(id.origin, id.name);
        let to_run = declared(record.deps, DependencyKind::Runtime);
        let to_build = declared(record.build_deps, DependencyKind::Build);
        lemma_link_all(t, c, to_run);
        lemma_all_linked_after_link_all(t, c, to_run);
        let first = t.link_all(c, to_run);
        assert(first == g.offer(record, false));
        lemma_index_survives(t, first, id.origin, id.name);
        assert(first.nodes[c] == t.nodes[c]);
        assert(absorbed(first, id));
        lemma_touch_absorbed(first, id);
        lemma_link_all_in_two_parts(first, c, to_run, to_build);
        lemma_link_all_linked_changes_nothing(first, c, to_run);
        lemma_link_all_in_two_parts(t, c, to_run, to_build);
    }
}

/// A record whose platform is not the graph's, or that is malformed, leaves the graph as
/// it was.
pub proof fn law_turned_away_record_changes_nothing(
    g: GraphView,
    record: RecordView,
    include_build_deps: bool,
)
    requires
        record.verdict_for(g.target) is Err,
    ensures
        g.offer(record, include_build_deps) == g,
{
}

/// The report on a graph is the same after the second pass of a batch as after the first.
pub proof fn law_same_batch_twice_same_stats(
    g: GraphView,
    records: Seq<RecordView>,
    include_build_deps: bool,
)
    requires
        g.wf(),
    ensures
        stats_of(
            g.offer_all(records, include_build_deps).offer_all(records, include_build_deps),
        ) == stats_of(g.offer_all(records, include_build_deps)),
{
    law_same_batch_twice(g, records, include_build_deps);
    lemma_offer_all(g, records, include_build_deps);
    lemma_offer_all(g.offer_all(records, include_build_deps), records, include_build_deps);
}

/// Of two records of one package that was not seen before, the one with the higher
/// version leaves its mark, whichever of the two comes first.
pub proof fn law_higher_version_wins_in_either_order(g: GraphView, low: IdentView, high: IdentView)
    requires
        g.wf(),
        low.valid(),
        low.fully_qualified(),
        high.valid(),
        high.fully_qualified(),
        low.same_package(high),
        compare_versions(low.version->0, high.version->0) == Comparison::Less,
        g.has_node(low.origin, low.name) ==> !g.nodes[g.index_of(low.origin, low.name)].resolved,
    ensures
        ({
            let rising = g.touch(low).touch(high);
            rising.nodes[rising.index_of(low.origin, low.name)] == (NodeView {
                ident: high,
                resolved: true,
            })
        }),
        ({
            let falling = g.touch(high).touch(low);
            falling.nodes[falling.index_of(low.origin, low.name)] == (NodeView {
                ident: high,
                resolved: true,
            })
        }),
{
    lemma_compare_reversed(low.version->0, high.version->0);
    lemma_touch(g, low);
    lemma_touch(g.touch(low), high);
    lemma_touch(g, high);
    lemma_touch(g.touch(high), low);
    let i = g.touch(low).index_of(low.origin, low.name);
    assert(g.touch(low).has_key(i, low.origin, low.name));
    let j = g.touch(high).index_of(low.origin, low.name);
    assert(g.touch(high).has_key(j, low.origin, low.name));
    if g.has_node(low.origin, low.name) {
        assert(g.has_key(g.index_of(low.origin, low.name), low.origin, low.name));
    }
}

/// Offering a record never lowers the version that a resolved node carries.
pub proof fn lemma_offer_never_lowers(
    g: GraphView,
    record: RecordView,
    include_build_deps: bool,
    i: int,
)
    requires
        g.wf(),
        0 <= i < g.nodes.len(),
        g.nodes[i].resolved,
    ensures
        g.offer(record, include_build_deps).nodes[i].resolved,
        g.offer(record, include_build_deps).nodes[i].ident.version is Some,
        version_at_least(
            g.offer(record, include_build_deps).nodes[i].ident.version->0,
            g.nodes[i].ident.version->0,
        ),
{
    if record.verdict_for(g.target) is Ok {
        let id = record.ident;
        lemma_wanted_valid(record, include_build_deps);
        law_stored_version_never_lowered(g, id, i);
        lemma_touch(g, id);
        let t = g.touch(id);
        lemma_link_all(t, t.index_of(id.origin, id.name), record.wanted(include_build_deps));
    } else {
        assert(g.nodes[i].wf());
        lemma_compare_same(g.nodes[i].ident.version->0);
    }
}

/// After a batch, the node of every record that was ingested carries a version that is
/// not below the record's: the highest version seen stays.
pub proof fn law_stored_version_not_below_any_record(
    g: GraphView,
    records: Seq<RecordView>,
    include_build_deps: bool,
    k: int,
)
    requires
        g.wf(),
        0 <= k < records.len(),
        records[k].verdict_for(g.target) is Ok,
    ensures
        ({
            let h = g.offer_all(records, include_build_deps);
            let id = records[k].ident;
            let node = h.nodes[h.index_of(id.origin, id.name)];
            &&& h.has_node(id.origin, id.name)
            &&& node.resolved
            &&& node.ident.version is Some
            &&& version_at_least(node.ident.version->0, id.version->0)
        }),
    decreases records.len(),
{
    let front = records.drop_last();
    let last = records.last();
    let id = records[k].ident;
    lemma_offer_all(g, front, include_build_deps);
    let before = g.offer_all(front, include_build_deps);
    lemma_offer(before, last, include_build_deps);
    let h = before.offer(last, include_build_deps);
    if k == records.len() - 1 {
        lemma_wanted_valid(last, include_build_deps);
        law_stored_version_not_below_record(before, id);
        lemma_touch(before, id);
        let t = before.touch(id);
        let c = t.index_of(id.origin, id.name);
        lemma_link_all(t, c, last.wanted(include_build_deps));
        lemma_index_survives(t, h, id.origin, id.name);
    } else {
        assert(front[k] == records[k]);
        law_stored_version_not_below_any_record(g, front, include_build_deps, k);
        let i = before.index_of(id.origin, id.name);
        lemma_index_survives(before, h, id.origin, id.name);
        lemma_offer_never_lowers(before, last, include_build_deps, i);
        lemma_at_least_transitive(
            h.nodes[i].ident.version->0,
            before.nodes[i].ident.version->0,
            id.version->0,
        );
    }
}

} // verus!
