//! The mathematical model of a dependency graph, and what ingesting a package
//! record does to it.

use vstd::prelude::*;
use crate::ident::{valid_part, IdentView};
use crate::reach::{acyclic, lemma_insert_keeps_acyclic, reaches};
use crate::record::{all_declared_valid, declared, DeclaredView, DependencyKind, RecordView};
use crate::target::PackageTarget;
use crate::version::version_at_least;

verus! {

/// A node as the contracts see it: the identifier it carries, and whether the package's
/// own record has been ingested. Until then the node stands for an unresolved dependency
/// and carries neither version nor release.
pub struct NodeView {
    pub ident: IdentView,
    pub resolved: bool,
}

/// An edge as the contracts see it: node `consumer` needs node `dependency`, to run or to
/// be built.
pub struct EdgeView {
    pub consumer: int,
    pub dependency: int,
    pub kind: DependencyKind,
}

/// A graph as the contracts see it: the nodes by their index, and the edges in the order
/// in which they were accepted. Between two nodes there is at most one edge of each kind.
pub struct GraphView {
    pub target: PackageTarget,
    pub nodes: Seq<NodeView>,
    pub edges: Seq<EdgeView>,
}

/// The node that stands for a dependency whose own record has not been seen.
pub open spec fn placeholder(origin: Seq<char>, name: Seq<char>) -> NodeView {
    NodeView {
        ident: IdentView { origin: origin, name: name, version: None, release: None },
        resolved: false,
    }
}

impl NodeView {
    pub open spec fn wf(self) -> bool {
        &&& self.ident.valid()
        &&& self.resolved ==> self.ident.fully_qualified()
        &&& !self.resolved ==> self.ident.version is None && self.ident.release is None
    }
}

impl GraphView {
    /// The graph without nodes.
    pub open spec fn empty(target: PackageTarget) -> GraphView {
        GraphView { target: target, nodes: Seq::empty(), edges: Seq::empty() }
    }

    /// Node `i` stands for the logical package `origin`/`name`.
    pub open spec fn has_key(self, i: int, origin: Seq<char>, name: Seq<char>) -> bool {
        self.nodes[i].ident.origin == origin && self.nodes[i].ident.name == name
    }

    pub open spec fn has_node(self, origin: Seq<char>, name: Seq<char>) -> bool {
        exists|i: int| 0 <= i < self.nodes.len() && self.has_key(i, origin, name)
    }

    /// The index of the node for `origin`/`name`, where there is one.
    pub open spec fn index_of(self, origin: Seq<char>, name: Seq<char>) -> int {
        choose|i: int| 0 <= i < self.nodes.len() && self.has_key(i, origin, name)
    }

    /// The edges as a relation between node indices, whatever their kind.
    pub open spec fn relation(self) -> Set<(int, int)> {
        Set::new(|p: (int, int)| self.has_edge(p.0, p.1))
    }

    /// There is an edge of kind `kind` from node `a` to node `b`.
    pub open spec fn has_edge_of(self, a: int, b: int, kind: DependencyKind) -> bool {
        self.edges.contains(EdgeView { consumer: a, dependency: b, kind: kind })
    }

    /// There is an edge from node `a` to node `b`, of one kind or the other.
    pub open spec fn has_edge(self, a: int, b: int) -> bool {
        self.has_edge_of(a, b, DependencyKind::Runtime) || self.has_edge_of(
            a,
            b,
            DependencyKind::Build,
        )
    }

    /// The graph has an edge from the node of `consumer` to the node of `dep`.
    pub open spec fn has_dependency(self, consumer: IdentView, dep: IdentView) -> bool {
        &&& self.has_node(consumer.origin, consumer.name)
        &&& self.has_node(dep.origin, dep.name)
        &&& self.has_edge(
            self.index_of(consumer.origin, consumer.name),
            self.index_of(dep.origin, dep.name),
        )
    }

    /// The graph has an edge of kind `kind` from the node of `consumer` to the node of `dep`.
    pub open spec fn has_dependency_of(
        self,
        consumer: IdentView,
        dep: IdentView,
        kind: DependencyKind,
    ) -> bool {
        &&& self.has_node(consumer.origin, consumer.name)
        &&& self.has_node(dep.origin, dep.name)
        &&& self.has_edge_of(
            self.index_of(consumer.origin, consumer.name),
            self.index_of(dep.origin, dep.name),
            kind,
        )
    }

    /// The graph has nodes for both packages, and that of `consumer` depends on that of
    /// `dep`, directly or through other packages; every package with a node depends in
    /// this sense on itself.
    pub open spec fn needs(self, consumer: IdentView, dep: IdentView) -> bool {
        &&& self.has_node(consumer.origin, consumer.name)
        &&& self.has_node(dep.origin, dep.name)
        &&& self.depends_on(
            self.index_of(consumer.origin, consumer.name),
            self.index_of(dep.origin, dep.name),
        )
    }

    /// Node `a` depends on node `b`, directly or through other packages.
    pub open spec fn depends_on(self, a: int, b: int) -> bool {
        reaches(self.relation(), a, b)
    }

    /// What holds of every graph: each logical package has one node, each edge joins two
    /// nodes and occurs once, and no package depends on itself, directly or through
    /// others.
    pub open spec fn wf(self) -> bool {
        &&& forall|i: int| 0 <= i < self.nodes.len() ==> (#[trigger] self.nodes[i]).wf()
        &&& forall|i: int, j: int|
            0 <= i < j < self.nodes.len() ==> !(#[trigger] self.nodes[i]).ident.same_package(
                (#[trigger] self.nodes[j]).ident,
            )
        &&& forall|k: int|
            0 <= k < self.edges.len() ==> 0 <= (#[trigger] self.edges[k]).consumer
                < self.nodes.len() && 0 <= self.edges[k].dependency < self.nodes.len()
        &&& self.edges.no_duplicates()
        &&& acyclic(self.relation())
    }

    /// The graph with one more node at the end.
    pub open spec fn with_node(self, node: NodeView) -> GraphView {
        GraphView { nodes: self.nodes.push(node), ..self }
    }

    /// The graph with one more edge at the end.
    pub open spec fn with_edge(self, consumer: int, dep: int, kind: DependencyKind) -> GraphView {
        GraphView {
            edges: self.edges.push(EdgeView { consumer: consumer, dependency: dep, kind: kind }),
            ..self
        }
    }

    /// Whether a record with identifier `id` replaces what node `old` carries: always
    /// where the node is unresolved, and otherwise where the new version is not lower
    /// than the stored one.
    pub open spec fn supersedes(id: IdentView, old: NodeView) -> bool {
        match (id.version, old.ident.version) {
            (Some(n), Some(o)) => !old.resolved || version_at_least(n, o),
            _ => true,
        }
    }

    /// The graph after the record with identifier `id` was seen: its node is created, or
    /// updated where the record supersedes it.
    pub open spec fn touch(self, id: IdentView) -> GraphView {
        let seen = NodeView { ident: id, resolved: true };
        if self.has_node(id.origin, id.name) {
            let i = self.index_of(id.origin, id.name);
            if Self::supersedes(id, self.nodes[i]) {
                GraphView { nodes: self.nodes.update(i, seen), ..self }
            } else {
                self
            }
        } else {
            GraphView { nodes: self.nodes.push(seen), ..self }
        }
    }

    /// The graph with a node for `origin`/`name`: a placeholder is added where there was none.
    pub open spec fn ensure(self, origin: Seq<char>, name: Seq<char>) -> GraphView {
        if self.has_node(origin, name) {
            self
        } else {
            GraphView { nodes: self.nodes.push(placeholder(origin, name)), ..self }
        }
    }

    /// An edge from `consumer` to `dep` would close a cycle: `dep` already depends on
    /// `consumer`, or is `consumer` itself.
    pub open spec fn would_cycle(self, consumer: int, dep: int) -> bool {
        self.depends_on(dep, consumer)
    }

    /// Whether the dependency of node `consumer` on `dep` is turned down.
    pub open spec fn link_rejected(self, consumer: int, dep: DeclaredView) -> bool {
        let g = self.ensure(dep.origin, dep.name);
        let d = g.index_of(dep.origin, dep.name);
        !g.has_edge_of(consumer, d, dep.kind) && g.would_cycle(consumer, d)
    }

    /// The graph after node `consumer` declared the dependency `dep`. The dependency gets a
    /// node in any case. The edge is added unless an edge of its kind is there already or
    /// it would close a cycle.
    pub open spec fn link(self, consumer: int, dep: DeclaredView) -> GraphView {
        let g = self.ensure(dep.origin, dep.name);
        let d = g.index_of(dep.origin, dep.name);
        if g.has_edge_of(consumer, d, dep.kind) || g.would_cycle(consumer, d) {
            g
        } else {
            g.with_edge(consumer, d, dep.kind)
        }
    }

    /// The graph after node `consumer` declared the dependencies `deps`, one after the other.
    pub open spec fn link_all(self, consumer: int, deps: Seq<DeclaredView>) -> GraphView
        decreases deps.len(),
    {
        if deps.len() == 0 {
            self
        } else {
            self.link_all(consumer, deps.drop_last()).link(consumer, deps.last())
        }
    }

    /// How many of the dependencies `deps` of node `consumer` are turned down.
    pub open spec fn rejected_in(self, consumer: int, deps: Seq<DeclaredView>) -> nat
        decreases deps.len(),
    {
        if deps.len() == 0 {
            0
        } else {
            let before = self.link_all(consumer, deps.drop_last());
            let last = if before.link_rejected(consumer, deps.last()) {
                1nat
            } else {
                0nat
            };
            self.rejected_in(consumer, deps.drop_last()) + last
        }
    }

    /// The graph after a well-formed record for its platform was ingested.
    pub open spec fn extend(self, record: RecordView, include_build_deps: bool) -> GraphView {
        let g = self.touch(record.ident);
        let consumer = g.index_of(record.ident.origin, record.ident.name);
        g.link_all(consumer, record.wanted(include_build_deps))
    }

    /// How many edges the ingestion of the record turns down.
    pub open spec fn extend_rejected(self, record: RecordView, include_build_deps: bool) -> nat {
        let g = self.touch(record.ident);
        let consumer = g.index_of(record.ident.origin, record.ident.name);
        g.rejected_in(consumer, record.wanted(include_build_deps))
    }

    /// The graph after a record was offered to it: ingested where the graph's verdict on
    /// it is good, and left alone otherwise.
    pub open spec fn offer(self, record: RecordView, include_build_deps: bool) -> GraphView {
        if record.verdict_for(self.target) is Ok {
            self.extend(record, include_build_deps)
        } else {
            self
        }
    }

    /// The graph after a batch of records was offered to it, in order.
    pub open spec fn offer_all(self, records: Seq<RecordView>, include_build_deps: bool) -> GraphView
        decreases records.len(),
    {
        if records.len() == 0 {
            self
        } else {
            self.offer_all(records.drop_last(), include_build_deps).offer(
                records.last(),
                include_build_deps,
            )
        }
    }
}

/// In a well-formed graph the node of a logical package is found at its own index.
pub proof fn lemma_index_of_node(g: GraphView, i: int)
    requires
        g.wf(),
        0 <= i < g.nodes.len(),
    ensures
        g.has_node(g.nodes[i].ident.origin, g.nodes[i].ident.name),
        g.index_of(g.nodes[i].ident.origin, g.nodes[i].ident.name) == i,
{
    let origin = g.nodes[i].ident.origin;
    let name = g.nodes[i].ident.name;
    assert(g.has_key(i, origin, name));
    let j = g.index_of(origin, name);
    assert(0 <= j < g.nodes.len() && g.has_key(j, origin, name));
    if j < i {
        assert(!g.nodes[j].ident.same_package(g.nodes[i].ident));
    } else if i < j {
        assert(!g.nodes[i].ident.same_package(g.nodes[j].ident));
    }
}

/// The index that a key has in a well-formed graph is where a node with that key stands.
pub proof fn lemma_index_of_key(g: GraphView, origin: Seq<char>, name: Seq<char>, i: int)
    requires
        g.wf(),
        0 <= i < g.nodes.len(),
        g.has_key(i, origin, name),
    ensures
        g.has_node(origin, name),
        g.index_of(origin, name) == i,
{
    lemma_index_of_node(g, i);
}

/// Both ends of an edge of a well-formed graph are nodes.
pub proof fn lemma_edge_joins_nodes(g: GraphView, a: int, b: int)
    requires
        g.wf(),
        g.has_edge(a, b),
    ensures
        0 <= a < g.nodes.len(),
        0 <= b < g.nodes.len(),
{
    let kind = if g.has_edge_of(a, b, DependencyKind::Runtime) {
        DependencyKind::Runtime
    } else {
        DependencyKind::Build
    };
    let e = EdgeView { consumer: a, dependency: b, kind: kind };
    let k = choose|k: int| 0 <= k < g.edges.len() && g.edges[k] == e;
    assert(0 <= g.edges[k].consumer < g.nodes.len());
}

pub proof fn lemma_empty_wf(target: PackageTarget)
    ensures
        GraphView::empty(target).wf(),
{
    let g = GraphView::empty(target);
    assert(g.relation() =~= Set::empty());
    assert(acyclic(g.relation()));
}

/// Seeing a record keeps the graph well formed, keeps the index of every node, and
/// leaves the edges alone.
pub proof fn lemma_touch(g: GraphView, id: IdentView)
    requires
        g.wf(),
        id.valid(),
        id.fully_qualified(),
    ensures
        g.touch(id).wf(),
        g.touch(id).target == g.target,
        g.touch(id).edges == g.edges,
        g.touch(id).has_node(id.origin, id.name),
        0 <= g.touch(id).index_of(id.origin, id.name) < g.touch(id).nodes.len(),
        g.has_node(id.origin, id.name) ==> g.touch(id).nodes.len() == g.nodes.len() && g.touch(
            id,
        ).index_of(id.origin, id.name) == g.index_of(id.origin, id.name),
        !g.has_node(id.origin, id.name) ==> g.touch(id).nodes == g.nodes.push(
            NodeView { ident: id, resolved: true },
        ) && g.touch(id).index_of(id.origin, id.name) == g.nodes.len(),
        forall|i: int|
            0 <= i < g.nodes.len() ==> (#[trigger] g.touch(id).nodes[i]).ident.same_package(
                g.nodes[i].ident,
            ),
{
    let h = g.touch(id);
    let seen = NodeView { ident: id, resolved: true };
    if g.has_node(id.origin, id.name) {
        let i = g.index_of(id.origin, id.name);
        assert(g.has_key(i, id.origin, id.name));
        assert forall|a: int, b: int| 0 <= a < b < h.nodes.len() implies !(
        #[trigger] h.nodes[a]).ident.same_package((#[trigger] h.nodes[b]).ident) by {
            assert(!g.nodes[a].ident.same_package(g.nodes[b].ident));
        }
        assert(h.has_key(i, id.origin, id.name));
        assert(h.relation() =~= g.relation());
        assert(h.wf());
        lemma_index_of_key(h, id.origin, id.name, i);
    } else {
        let n = g.nodes.len() as int;
        assert forall|a: int, b: int| 0 <= a < b < h.nodes.len() implies !(
        #[trigger] h.nodes[a]).ident.same_package((#[trigger] h.nodes[b]).ident) by {
            if b == n {
                assert(!g.has_key(a, id.origin, id.name));
            } else {
                assert(!g.nodes[a].ident.same_package(g.nodes[b].ident));
            }
        }
        assert(h.has_key(n, id.origin, id.name));
        assert(h.relation() =~= g.relation());
        assert(h.wf());
        lemma_index_of_key(h, id.origin, id.name, n);
    }
}

/// Making sure of a node keeps the graph well formed, keeps every node, and leaves the
/// edges alone.
pub proof fn lemma_ensure(g: GraphView, origin: Seq<char>, name: Seq<char>)
    requires
        g.wf(),
        valid_part(origin),
        valid_part(name),
    ensures
        g.ensure(origin, name).wf(),
        g.ensure(origin, name).target == g.target,
        g.ensure(origin, name).edges == g.edges,
        g.ensure(origin, name).has_node(origin, name),
        0 <= g.ensure(origin, name).index_of(origin, name) < g.ensure(origin, name).nodes.len(),
        g.has_node(origin, name) ==> g.ensure(origin, name) == g,
        !g.has_node(origin, name) ==> g.ensure(origin, name).nodes == g.nodes.push(
            placeholder(origin, name),
        ) && g.ensure(origin, name).index_of(origin, name) == g.nodes.len(),
{
    let h = g.ensure(origin, name);
    if g.has_node(origin, name) {
        let i = g.index_of(origin, name);
        assert(g.has_key(i, origin, name));
    } else {
        let n = g.nodes.len() as int;
        assert forall|a: int, b: int| 0 <= a < b < h.nodes.len() implies !(
        #[trigger] h.nodes[a]).ident.same_package((#[trigger] h.nodes[b]).ident) by {
            if b == n {
                assert(!g.has_key(a, origin, name));
            } else {
                assert(!g.nodes[a].ident.same_package(g.nodes[b].ident));
            }
        }
        assert(h.has_key(n, origin, name));
        assert(h.relation() =~= g.relation());
        assert(h.wf());
        lemma_index_of_key(h, origin, name, n);
    }
}

/// One more edge is one more pair in the relation.
pub proof fn lemma_push_edge_relation(g: GraphView, consumer: int, dep: int, kind: DependencyKind)
    ensures
        g.with_edge(consumer, dep, kind).relation() =~= g.relation().insert((consumer, dep)),
{
    let h = g.with_edge(consumer, dep, kind);
    let e = EdgeView { consumer: consumer, dependency: dep, kind: kind };
    assert(h.edges[g.edges.len() as int] == e);
    assert forall|p: (int, int)| h.relation().contains(p) <==> g.relation().insert(
        (consumer, dep),
    ).contains(p) by {
        lemma_push_edge_of(g, e, p.0, p.1, DependencyKind::Runtime);
        lemma_push_edge_of(g, e, p.0, p.1, DependencyKind::Build);
    }
}

/// The edges of one kind of a graph with one more edge.
proof fn lemma_push_edge_of(g: GraphView, e: EdgeView, a: int, b: int, kind: DependencyKind)
    ensures
        g.with_edge(e.consumer, e.dependency, e.kind).has_edge_of(a, b, kind) <==> (g.has_edge_of(
            a,
            b,
            kind,
        ) || (a == e.consumer && b == e.dependency && kind == e.kind)),
{
    let h = g.with_edge(e.consumer, e.dependency, e.kind);
    let x = EdgeView { consumer: a, dependency: b, kind: kind };
    assert(h.edges[g.edges.len() as int] == e);
    if h.edges.contains(x) {
        let k = choose|k: int| 0 <= k < h.edges.len() && h.edges[k] == x;
        if k < g.edges.len() {
            assert(g.edges[k] == x);
        }
    }
    if g.edges.contains(x) {
        let k = choose|k: int| 0 <= k < g.edges.len() && g.edges[k] == x;
        assert(h.edges[k] == x);
    }
}

/// A new edge that closes no cycle keeps the graph well formed.
pub proof fn lemma_with_edge(g: GraphView, consumer: int, dep: int, kind: DependencyKind)
    requires
        g.wf(),
        0 <= consumer < g.nodes.len(),
        0 <= dep < g.nodes.len(),
        !g.has_edge_of(consumer, dep, kind),
        !g.would_cycle(consumer, dep),
    ensures
        g.with_edge(consumer, dep, kind).wf(),
        g.with_edge(consumer, dep, kind).relation() == g.relation().insert((consumer, dep)),
{
    let r = g.with_edge(consumer, dep, kind);
    let e = EdgeView { consumer: consumer, dependency: dep, kind: kind };
    lemma_push_edge_relation(g, consumer, dep, kind);
    lemma_insert_keeps_acyclic(g.relation(), consumer, dep);
    assert forall|i: int, j: int| 0 <= i < j < r.edges.len() implies r.edges[i] != r.edges[j] by {
        if j == g.edges.len() {
            assert(g.edges[i] != e);
        }
    }
}

/// Declaring one dependency keeps the graph well formed and keeps what was there.
pub proof fn lemma_link(g: GraphView, consumer: int, dep: DeclaredView)
    requires
        g.wf(),
        0 <= consumer < g.nodes.len(),
        dep.valid(),
    ensures
        g.link(consumer, dep).wf(),
        g.link(consumer, dep).target == g.target,
        g.link(consumer, dep).nodes == g.ensure(dep.origin, dep.name).nodes,
        g.nodes.len() <= g.link(consumer, dep).nodes.len(),
        forall|i: int| 0 <= i < g.nodes.len() ==> #[trigger] g.link(consumer, dep).nodes[i] == g.nodes[i],
        g.edges.len() <= g.link(consumer, dep).edges.len() <= g.edges.len() + 1,
        forall|k: int| 0 <= k < g.edges.len() ==> #[trigger] g.link(consumer, dep).edges[k] == g.edges[k],
{
    lemma_ensure(g, dep.origin, dep.name);
    let h = g.ensure(dep.origin, dep.name);
    let d = h.index_of(dep.origin, dep.name);
    if !(h.has_edge_of(consumer, d, dep.kind) || h.would_cycle(consumer, d)) {
        lemma_with_edge(h, consumer, d, dep.kind);
    }
}

/// The graph `h` holds all that `g` holds: the same platform, every node at its index
/// with its logical package, and every edge at its place.
pub open spec fn grown_from(h: GraphView, g: GraphView) -> bool {
    &&& h.target == g.target
    &&& g.nodes.len() <= h.nodes.len()
    &&& forall|i: int|
        0 <= i < g.nodes.len() ==> (#[trigger] h.nodes[i]).ident.same_package(g.nodes[i].ident)
    &&& g.edges.len() <= h.edges.len()
    &&& forall|k: int| 0 <= k < g.edges.len() ==> #[trigger] h.edges[k] == g.edges[k]
}

/// Declaring dependencies keeps the graph well formed and keeps what was there.
pub proof fn lemma_link_all(g: GraphView, consumer: int, deps: Seq<DeclaredView>)
    requires
        g.wf(),
        0 <= consumer < g.nodes.len(),
        all_declared_valid(deps),
    ensures
        g.link_all(consumer, deps).wf(),
        grown_from(g.link_all(consumer, deps), g),
        forall|i: int|
            0 <= i < g.nodes.len() ==> #[trigger] g.link_all(consumer, deps).nodes[i] == g.nodes[i],
    decreases deps.len(),
{
    if deps.len() > 0 {
        let front = deps.drop_last();
        assert forall|k: int| 0 <= k < front.len() implies (#[trigger] front[k]).valid() by {
            assert(front[k] == deps[k]);
        }
        lemma_link_all(g, consumer, front);
        let h = g.link_all(consumer, front);
        assert(deps.last() == deps[deps.len() - 1]);
        assert(deps.last().valid());
        lemma_link(h, consumer, deps.last());
        let r = h.link(consumer, deps.last());
        assert forall|i: int| 0 <= i < g.nodes.len() implies (#[trigger] r.nodes[i]).ident.same_package(
            g.nodes[i].ident,
        ) by {
            assert(r.nodes[i] == h.nodes[i]);
            assert(h.nodes[i].ident.same_package(g.nodes[i].ident));
        }
        assert forall|i: int| 0 <= i < g.nodes.len() implies #[trigger] r.nodes[i] == g.nodes[i] by {
            assert(r.nodes[i] == h.nodes[i]);
            assert(h.nodes[i] == g.nodes[i]);
        }
        assert forall|k: int| 0 <= k < g.edges.len() implies #[trigger] r.edges[k] == g.edges[k] by {
            assert(r.edges[k] == h.edges[k]);
        }
    }
}

/// The dependencies that a well-formed record asks for are well formed.
pub proof fn lemma_wanted_valid(record: RecordView, include_build_deps: bool)
    requires
        record.verdict() is Ok,
    ensures
        all_declared_valid(record.wanted(include_build_deps)),
        all_declared_valid(declared(record.deps, DependencyKind::Runtime)),
        all_declared_valid(declared(record.build_deps, DependencyKind::Build)),
{
    let first = declared(record.deps, DependencyKind::Runtime);
    let second = declared(record.build_deps, DependencyKind::Build);
    assert forall|k: int| 0 <= k < first.len() implies (#[trigger] first[k]).valid() by {
        assert(record.deps[k].valid());
    }
    assert forall|k: int| 0 <= k < second.len() implies (#[trigger] second[k]).valid() by {
        assert(record.build_deps[k].valid());
    }
    let deps = record.wanted(include_build_deps);
    assert forall|k: int| 0 <= k < deps.len() implies (#[trigger] deps[k]).valid() by {
        if k < first.len() {
            assert(deps[k] == first[k]);
        } else {
            assert(deps[k] == second[k - first.len()]);
        }
    }
}

/// Ingesting a well-formed record keeps the graph well formed and keeps what was there.
pub proof fn lemma_extend(g: GraphView, record: RecordView, include_build_deps: bool)
    requires
        g.wf(),
        record.verdict() is Ok,
    ensures
        g.extend(record, include_build_deps).wf(),
        grown_from(g.extend(record, include_build_deps), g),
{
    let id = record.ident;
    lemma_touch(g, id);
    let h = g.touch(id);
    let consumer = h.index_of(id.origin, id.name);
    let deps = record.wanted(include_build_deps);
    lemma_wanted_valid(record, include_build_deps);
    lemma_link_all(h, consumer, deps);
    let r = h.link_all(consumer, deps);
    assert forall|i: int| 0 <= i < g.nodes.len() implies (#[trigger] r.nodes[i]).ident.same_package(
        g.nodes[i].ident,
    ) by {
        assert(r.nodes[i].ident.same_package(h.nodes[i].ident));
        assert(h.nodes[i].ident.same_package(g.nodes[i].ident));
    }
}

/// Whatever record is offered, the graph stays well formed, and so free of cycles, and
/// keeps what it held.
pub proof fn lemma_offer(g: GraphView, record: RecordView, include_build_deps: bool)
    requires
        g.wf(),
    ensures
        g.offer(record, include_build_deps).wf(),
        grown_from(g.offer(record, include_build_deps), g),
{
    if record.verdict_for(g.target) is Ok {
        lemma_extend(g, record, include_build_deps);
    }
}

/// Whatever records are offered, in whatever order, the graph stays well formed, and so
/// free of cycles, and keeps what it held.
pub proof fn lemma_offer_all(g: GraphView, records: Seq<RecordView>, include_build_deps: bool)
    requires
        g.wf(),
    ensures
        g.offer_all(records, include_build_deps).wf(),
        grown_from(g.offer_all(records, include_build_deps), g),
    decreases records.len(),
{
    if records.len() > 0 {
        lemma_offer_all(g, records.drop_last(), include_build_deps);
        let h = g.offer_all(records.drop_last(), include_build_deps);
        lemma_offer(h, records.last(), include_build_deps);
        let r = h.offer(records.last(), include_build_deps);
        assert forall|i: int| 0 <= i < g.nodes.len() implies (#[trigger] r.nodes[i]).ident.same_package(
            g.nodes[i].ident,
        ) by {
            assert(r.nodes[i].ident.same_package(h.nodes[i].ident));
            assert(h.nodes[i].ident.same_package(g.nodes[i].ident));
        }
        assert forall|k: int| 0 <= k < g.edges.len() implies #[trigger] r.edges[k] == g.edges[k] by {
            assert(r.edges[k] == h.edges[k]);
        }
    }
}

} // verus!
