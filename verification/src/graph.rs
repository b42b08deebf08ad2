//! The acyclic dependency graph of one platform.

use std::collections::HashMap;
use vstd::prelude::*;
use crate::ident::PackageIdent;
use crate::model::{
    lemma_empty_wf, lemma_ensure, lemma_index_of_key, lemma_touch, lemma_wanted_valid,
    lemma_with_edge, placeholder, EdgeView, GraphView, NodeView,
};
use crate::reach::{
    lemma_reaches_self, lemma_sink_reaches_only_itself, lemma_transpose_reaches, reaches,
    transpose,
};
use crate::record::{
    all_declared_valid, declared, ident_views, DeclaredView, DependencyKind, PackageRecord,
    RecordError,
};
use crate::search::{
    adjacency_in_range, adjacency_relation, lemma_adjacency_new_entry, lemma_adjacency_new_row,
    reachable_from,
};
use crate::target::PackageTarget;
use crate::text::{hash_char, hash_step, hash_text, text_hash};
use crate::version::{compare_version_text, Comparison};

verus! {

broadcast use vstd::std_specs::hash::group_hash_axioms;

/// The hash under which the node of a logical package is filed: that of origin, `/` and
/// name.
pub open spec fn key_hash(origin: Seq<char>, name: Seq<char>) -> u64 {
    text_hash(hash_step(text_hash(0, origin), '/'), name)
}

fn key_hash_of(origin: &String, name: &String) -> (h: u64)
    ensures
        h == key_hash(origin@, name@),
{
    let first = hash_text(0, origin.as_str());
    hash_text(hash_char(first, '/'), name.as_str())
}

/// A node of the graph: a logical package, with the concrete version and release last
/// selected for it.
#[derive(Debug, PartialEq, Eq)]
pub struct Node {
    pub ident: PackageIdent,
    /// Whether the package's own record was ingested; if not, the node only stands for a
    /// dependency that some other package declared.
    pub resolved: bool,
}

impl View for Node {
    type V = NodeView;

    open spec fn view(&self) -> NodeView {
        NodeView { ident: self.ident@, resolved: self.resolved }
    }
}

impl Clone for Node {
    fn clone(&self) -> (r: Self)
        ensures
            r@ == self@,
    {
        Node { ident: self.ident.clone(), resolved: self.resolved }
    }
}

/// The size of a graph.
#[derive(Clone, Copy, Debug, PartialEq, Eq, Structural)]
pub struct GraphStats {
    pub node_count: usize,
    pub edge_count: usize,
}

/// What ingesting one record did to a graph.
#[derive(Clone, Copy, Debug, PartialEq, Eq, Structural)]
pub struct ExtendOutcome {
    /// The nodes that were written: the record's own node, made or found, and each node
    /// made for a dependency that had none.
    pub nodes_touched: usize,
    /// The edges that were added.
    pub edges_added: usize,
    /// The declared dependencies that were turned down because their edge would have
    /// closed a cycle.
    pub edges_rejected: usize,
}

/// An edge of the graph: the package of node `consumer` needs that of node `dependency`,
/// to run or to be built.
#[derive(Clone, Copy, Debug, PartialEq, Eq, Structural)]
pub struct Edge {
    pub consumer: usize,
    pub dependency: usize,
    pub kind: DependencyKind,
}

impl View for Edge {
    type V = EdgeView;

    open spec fn view(&self) -> EdgeView {
        EdgeView {
            consumer: self.consumer as int,
            dependency: self.dependency as int,
            kind: self.kind,
        }
    }
}

/// The dependencies that a list of identifiers and kinds declares.
pub open spec fn declared_views(s: Seq<(&PackageIdent, DependencyKind)>) -> Seq<DeclaredView> {
    s.map_values(
        |d: (&PackageIdent, DependencyKind)|
            DeclaredView { origin: d.0@.origin, name: d.0@.name, kind: d.1 },
    )
}

/// The views of a sequence of nodes.
pub open spec fn node_views(s: Seq<Node>) -> Seq<NodeView> {
    s.map_values(|n: Node| n@)
}

/// The views of a sequence of edges.
pub open spec fn edge_views(s: Seq<Edge>) -> Seq<EdgeView> {
    s.map_values(|e: Edge| e@)
}

/// The dependency graph of one platform: a node for each logical package, and an edge
/// from each package to each package it depends on, as far as no cycle would form.
pub struct DependencyGraph {
    pub(crate) target: PackageTarget,
    pub(crate) nodes: Vec<Node>,
    /// The edges in the order in which they came.
    pub(crate) edges: Vec<Edge>,
    /// For each node, the nodes it depends on, one entry for each edge.
    pub(crate) deps: Vec<Vec<usize>>,
    /// For each entry of `deps`, the kind of its edge.
    pub(crate) dep_kinds: Vec<Vec<DependencyKind>>,
    /// For each node, the nodes that depend on it.
    pub(crate) rdeps: Vec<Vec<usize>>,
    /// For each hash of an origin and name, the nodes whose package has that hash.
    pub(crate) index: HashMap<u64, Vec<usize>>,
}

impl View for DependencyGraph {
    type V = GraphView;

    closed spec fn view(&self) -> GraphView {
        self.model()
    }
}

impl DependencyGraph {
    /// The graph that the fields stand for.
    pub(crate) open spec fn model(&self) -> GraphView {
        GraphView {
            target: self.target,
            nodes: node_views(self.nodes@),
            edges: edge_views(self.edges@),
        }
    }

    /// The model is well formed, and the lists of neighbours say what the edges say.
    pub(crate) open spec fn consistent(&self) -> bool {
        &&& self.model().wf()
        &&& self.deps.len() == self.nodes.len()
        &&& self.rdeps.len() == self.nodes.len()
        &&& adjacency_in_range(self.deps@)
        &&& adjacency_in_range(self.rdeps@)
        &&& adjacency_relation(self.deps@) == self.model().relation()
        &&& adjacency_relation(self.rdeps@) == transpose(self.model().relation())
        &&& self.dep_kinds.len() == self.nodes.len()
        &&& forall|u: int|
            0 <= u < self.nodes.len() ==> (#[trigger] self.dep_kinds[u]).len() == self.deps[u].len()
        &&& forall|u: int, k: int|
            0 <= u < self.nodes.len() && 0 <= k < self.deps[u].len() ==> self.model().edges.contains(
                #[trigger] self.row_edge(u, k),
            )
        &&& forall|e: int| 0 <= e < self.edges.len() ==> #[trigger] self.in_row(e)
        &&& forall|i: int| 0 <= i < self.nodes.len() ==> #[trigger] self.filed(i)
        &&& forall|h: u64, k: int|
            self.index@.contains_key(h) && 0 <= k < self.index@[h]@.len() ==> (
            #[trigger] self.index@[h]@[k]) < self.nodes.len()
    }

    /// The edge that entry `k` of the list of node `u` stands for.
    pub(crate) open spec fn row_edge(&self, u: int, k: int) -> EdgeView {
        EdgeView { consumer: u, dependency: self.deps[u][k] as int, kind: self.dep_kinds[u][k] }
    }

    /// Edge `e` has its entry in the list of its consumer.
    pub(crate) open spec fn in_row(&self, e: int) -> bool {
        let u = self.edges[e].consumer as int;
        exists|k: int| 0 <= k < self.deps[u].len() && #[trigger] self.row_edge(u, k) == self.edges[e]@
    }

    /// Node `i` is filed in the index under the hash of its package.
    pub(crate) open spec fn filed(&self, i: int) -> bool {
        let h = key_hash(self.nodes[i].ident.origin@, self.nodes[i].ident.name@);
        self.index@.contains_key(h) && self.index@[h]@.contains(i as usize)
    }

    /// What holds of every graph between calls.
    pub closed spec fn wf(&self) -> bool {
        self.consistent()
    }

    /// What the view and well-formedness mean in terms of the fields.
    pub(crate) proof fn lemma_unfold(&self)
        ensures
            self@ == self.model(),
            self.wf() == self.consistent(),
    {
    }

    /// Between calls the graph that the contracts speak of is well formed: in particular
    /// it holds no cycle.
    pub proof fn lemma_view_wf(&self)
        requires
            self.wf(),
        ensures
            self@.wf(),
    {
    }

    /// An empty graph for `target`.
    pub fn new(target: PackageTarget) -> (g: Self)
        ensures
            g.wf(),
            g@ == GraphView::empty(target),
    {
        let g = DependencyGraph {
            target,
            nodes: Vec::new(),
            edges: Vec::new(),
            deps: Vec::new(),
            dep_kinds: Vec::new(),
            rdeps: Vec::new(),
            index: HashMap::new(),
        };
        proof {
            lemma_empty_wf(target);
            assert(g@.nodes =~= Seq::empty());
            assert(g@.edges =~= Seq::empty());
            assert(adjacency_relation(g.deps@) =~= g@.relation());
            assert(adjacency_relation(g.rdeps@) =~= transpose(g@.relation()));
        }
        g
    }

    /// The platform whose packages the graph holds.
    pub fn target(&self) -> (t: PackageTarget)
        ensures
            t == self@.target,
    {
        self.target
    }

    /// The number of logical packages in the graph.
    pub fn node_count(&self) -> (n: usize)
        ensures
            n == self@.nodes.len(),
    {
        self.nodes.len()
    }

    /// The number of edges in the graph.
    pub fn edge_count(&self) -> (n: usize)
        ensures
            n == self@.edges.len(),
    {
        self.edges.len()
    }

    /// Both counts at once, without walking the graph.
    pub fn stats(&self) -> (s: GraphStats)
        ensures
            s.node_count == self@.nodes.len(),
            s.edge_count == self@.edges.len(),
    {
        GraphStats { node_count: self.nodes.len(), edge_count: self.edges.len() }
    }

    /// The index of the node for the logical package `origin`/`name`, if there is one.
    pub(crate) fn find(&self, origin: &String, name: &String) -> (r: Option<usize>)
        requires
            self.wf(),
        ensures
            r is Some <==> self@.has_node(origin@, name@),
            r matches Some(i) ==> i < self.nodes.len() && i == self@.index_of(origin@, name@),
    {
        let h = key_hash_of(origin, name);
        match self.index.get(&h) {
            None => {
                proof {
                    assert forall|i: int| 0 <= i < self.nodes.len() implies !self@.has_key(
                        i,
                        origin@,
                        name@,
                    ) by {
                        assert(self.filed(i));
                    }
                }
                None
            },
            Some(bucket) => {
                let mut k: usize = 0;
                while k < bucket.len()
                    invariant
                        k <= bucket.len(),
                        self.wf(),
                        self.index@.contains_key(h),
                        bucket@ == self.index@[h]@,
                        forall|m: int|
                            0 <= m < k ==> !self@.has_key(
                                (#[trigger] bucket@[m]) as int,
                                origin@,
                                name@,
                            ),
                    decreases bucket.len() - k,
                {
                    let i = bucket[k];
                    assert(self.index@[h]@[k as int] < self.nodes.len());
                    if self.nodes[i].ident.origin == *origin && self.nodes[i].ident.name == *name {
                        proof {
                            assert(self@.has_key(i as int, origin@, name@));
                            lemma_index_of_key(self@, origin@, name@, i as int);
                        }
                        return Some(i);
                    }
                    assert(!self@.has_key(i as int, origin@, name@));
                    k += 1;
                }
                proof {
                    assert forall|i: int| 0 <= i < self.nodes.len() implies !self@.has_key(
                        i,
                        origin@,
                        name@,
                    ) by {
                        assert(self.filed(i));
                        if self@.has_key(i, origin@, name@) {
                            let m = choose|m: int|
                                0 <= m < bucket@.len() && bucket@[m] == i as usize;
                            assert(!self@.has_key(bucket@[m] as int, origin@, name@));
                        }
                    }
                }
                None
            },
        }
    }

    /// All nodes, by their number.
    pub fn nodes(&self) -> (r: &Vec<Node>)
        ensures
            node_views(r@) == self@.nodes,
    {
        &self.nodes
    }

    /// All edges, in the order in which they were accepted.
    pub fn edges(&self) -> (r: &Vec<Edge>)
        ensures
            edge_views(r@) == self@.edges,
    {
        &self.edges
    }

    /// The node of the logical package that `ident` names, if the graph has one. Only
    /// origin and name of `ident` count.
    pub fn node(&self, ident: &PackageIdent) -> (r: Option<&Node>)
        requires
            self.wf(),
        ensures
            r is Some <==> self@.has_node(ident@.origin, ident@.name),
            r matches Some(n) ==> n@ == self@.nodes[self@.index_of(ident@.origin, ident@.name)],
    {
        match self.find(&ident.origin, &ident.name) {
            Some(i) => Some(&self.nodes[i]),
            None => None,
        }
    }

    /// Whether the graph holds an edge, of one kind or the other, from the package
    /// `consumer` to the package `dep`.
    pub fn has_edge(&self, consumer: &PackageIdent, dep: &PackageIdent) -> (r: bool)
        requires
            self.wf(),
        ensures
            r == self@.has_dependency(consumer@, dep@),
    {
        match self.find(&consumer.origin, &consumer.name) {
            None => false,
            Some(c) => match self.find(&dep.origin, &dep.name) {
                None => false,
                Some(d) => self.has_edge_at(c, d, DependencyKind::Runtime) || self.has_edge_at(
                    c,
                    d,
                    DependencyKind::Build,
                ),
            },
        }
    }

    /// Whether the graph holds an edge of kind `kind` from the package `consumer` to the
    /// package `dep`.
    pub fn has_edge_of(&self, consumer: &PackageIdent, dep: &PackageIdent, kind: DependencyKind) -> (r:
        bool)
        requires
            self.wf(),
        ensures
            r == self@.has_dependency_of(consumer@, dep@, kind),
    {
        match self.find(&consumer.origin, &consumer.name) {
            None => false,
            Some(c) => match self.find(&dep.origin, &dep.name) {
                None => false,
                Some(d) => self.has_edge_at(c, d, kind),
            },
        }
    }

    /// Whether the package `consumer` depends on the package `dep`, directly or through
    /// other packages.
    pub fn depends_on(&self, consumer: &PackageIdent, dep: &PackageIdent) -> (r: bool)
        requires
            self.wf(),
        ensures
            r == self@.needs(consumer@, dep@),
    {
        match self.find(&consumer.origin, &consumer.name) {
            None => false,
            Some(c) => match self.find(&dep.origin, &dep.name) {
                None => false,
                Some(d) => {
                    let seen = reachable_from(&self.deps, c);
                    seen[d]
                },
            },
        }
    }

    /// Adds a node with no edges at the end.
    fn add_node(&mut self, node: Node)
        requires
            old(self).wf(),
            old(self)@.with_node(node@).wf(),
        ensures
            final(self).wf(),
            final(self)@ == old(self)@.with_node(node@),
            final(self).nodes.len() == old(self).nodes.len() + 1,
    {
        let no_deps: Vec<usize> = Vec::new();
        let no_kinds: Vec<DependencyKind> = Vec::new();
        let no_rdeps: Vec<usize> = Vec::new();
        proof {
            lemma_adjacency_new_row(self.deps@, no_deps);
            lemma_adjacency_new_row(self.rdeps@, no_rdeps);
        }
        let h = key_hash_of(&node.ident.origin, &node.ident.name);
        let n = self.nodes.len();
        self.nodes.push(node);
        self.deps.push(no_deps);
        self.dep_kinds.push(no_kinds);
        self.rdeps.push(no_rdeps);
        let mut bucket: Vec<usize> = match self.index.remove(&h) {
            Some(bucket) => bucket,
            None => Vec::new(),
        };
        let ghost before = bucket@;
        bucket.push(n);
        self.index.insert(h, bucket);
        proof {
            assert(self@.nodes =~= old(self)@.nodes.push(node@));
            assert(self.model().relation() =~= old(self).model().relation());
            assert forall|u: int, k: int|
                0 <= u < self.nodes.len() && 0 <= k < self.deps[u].len() implies self.model().edges.contains(
                #[trigger] self.row_edge(u, k)) by {
                assert(old(self).model().edges.contains(old(self).row_edge(u, k)));
            }
            assert forall|e: int| 0 <= e < self.edges.len() implies #[trigger] self.in_row(e) by {
                assert(old(self).in_row(e));
                let u = self.edges[e].consumer as int;
                assert(0 <= old(self).model().edges[e].consumer < n);
                let k = choose|k: int|
                    0 <= k < old(self).deps[u].len() && #[trigger] old(self).row_edge(u, k)
                        == old(self).edges[e]@;
                assert(self.row_edge(u, k) == self.edges[e]@);
            }
            assert(self.index@[h]@ == before.push(n));
            assert(old(self).index@.contains_key(h) ==> before == old(self).index@[h]@);
            assert forall|i: int| 0 <= i < self.nodes.len() implies #[trigger] self.filed(i) by {
                if i < n {
                    assert(old(self).filed(i));
                    assert(self.nodes[i] == old(self).nodes[i]);
                    let hi = key_hash(self.nodes[i].ident.origin@, self.nodes[i].ident.name@);
                    if hi == h {
                        let m = choose|m: int| 0 <= m < before.len() && before[m] == i as usize;
                        assert(before.push(n)[m] == i as usize);
                    }
                } else {
                    assert(before.push(n)[before.len() as int] == n);
                }
            }
            assert forall|g: u64, k: int|
                self.index@.contains_key(g) && 0 <= k < self.index@[g]@.len() implies (
            #[trigger] self.index@[g]@[k]) < self.nodes.len() by {
                if g == h {
                    if k < before.len() {
                        assert(old(self).index@[h]@[k] < n);
                    }
                } else {
                    assert(old(self).index@[g]@[k] < n);
                }
            }
        }
    }

    /// Makes sure that the logical package `origin`/`name` has a node; says where it is.
    fn ensure_node(&mut self, origin: &String, name: &String) -> (r: usize)
        requires
            old(self).wf(),
            crate::ident::valid_part(origin@),
            crate::ident::valid_part(name@),
        ensures
            final(self).wf(),
            final(self)@ == old(self)@.ensure(origin@, name@),
            r < final(self).nodes.len(),
            r == final(self)@.index_of(origin@, name@),
    {
        proof {
            lemma_ensure(self@, origin@, name@);
        }
        match self.find(origin, name) {
            Some(i) => i,
            None => {
                let node = Node {
                    ident: PackageIdent {
                        origin: origin.clone(),
                        name: name.clone(),
                        version: None,
                        release: None,
                    },
                    resolved: false,
                };
                assert(node@ == placeholder(origin@, name@));
                let n = self.nodes.len();
                self.add_node(node);
                n
            },
        }
    }

    /// Records that the package `ident` itself was seen: its node is made, or takes the
    /// record's version and release where the record supersedes what the node carries.
    /// Says where the node is and whether it was there before.
    fn touch(&mut self, ident: &PackageIdent) -> (r: (usize, bool))
        requires
            old(self).wf(),
            ident@.valid(),
            ident@.fully_qualified(),
        ensures
            final(self).wf(),
            final(self)@ == old(self)@.touch(ident@),
            r.0 < final(self).nodes.len(),
            r.0 == final(self)@.index_of(ident@.origin, ident@.name),
            r.1 == old(self)@.has_node(ident@.origin, ident@.name),
    {
        proof {
            lemma_touch(self@, ident@);
        }
        match self.find(&ident.origin, &ident.name) {
            Some(i) => {
                let replace = if !self.nodes[i].resolved {
                    true
                } else {
                    match (&ident.version, &self.nodes[i].ident.version) {
                        (Some(n), Some(o)) => compare_version_text(n.as_str(), o.as_str())
                            != Comparison::Less,
                        _ => true,
                    }
                };
                assert(replace == GraphView::supersedes(ident@, self@.nodes[i as int]));
                if replace {
                    let node = Node { ident: ident.clone(), resolved: true };
                    self.nodes[i] = node;
                    proof {
                        assert(self@.nodes =~= old(self)@.nodes.update(i as int, node@));
                        assert(self.model().relation() =~= old(self).model().relation());
                        assert(old(self)@.has_key(i as int, ident@.origin, ident@.name));
                        assert forall|u: int, k: int|
                            0 <= u < self.nodes.len() && 0 <= k < self.deps[u].len() implies self.model().edges.contains(
                            #[trigger] self.row_edge(u, k)) by {
                            assert(old(self).model().edges.contains(old(self).row_edge(u, k)));
                        }
                        assert forall|e: int| 0 <= e < self.edges.len() implies #[trigger] self.in_row(
                            e,
                        ) by {
                            assert(old(self).in_row(e));
                            let u = self.edges[e].consumer as int;
                            let k = choose|k: int|
                                0 <= k < old(self).deps[u].len() && #[trigger] old(self).row_edge(
                                    u,
                                    k,
                                ) == old(self).edges[e]@;
                            assert(self.row_edge(u, k) == self.edges[e]@);
                        }
                        assert forall|j: int| 0 <= j < self.nodes.len() implies #[trigger] self.filed(
                            j,
                        ) by {
                            assert(old(self).filed(j));
                        }
                    }
                }
                (i, true)
            },
            None => {
                let node = Node { ident: ident.clone(), resolved: true };
                let n = self.nodes.len();
                self.add_node(node);
                (n, false)
            },
        }
    }

    /// Whether node `consumer` has an edge of kind `kind` to node `dep`.
    fn has_edge_at(&self, consumer: usize, dep: usize, kind: DependencyKind) -> (r: bool)
        requires
            self.wf(),
            consumer < self.nodes.len(),
        ensures
            r == self@.has_edge_of(consumer as int, dep as int, kind),
    {
        let row = &self.deps[consumer];
        let kinds = &self.dep_kinds[consumer];
        let ghost wanted = EdgeView { consumer: consumer as int, dependency: dep as int, kind: kind };
        let mut k: usize = 0;
        while k < row.len()
            invariant
                k <= row.len(),
                self.wf(),
                consumer < self.nodes.len(),
                row@ == self.deps@[consumer as int]@,
                kinds@ == self.dep_kinds@[consumer as int]@,
                wanted == (EdgeView { consumer: consumer as int, dependency: dep as int, kind: kind }),
                forall|m: int| 0 <= m < k ==> self.row_edge(consumer as int, m) != wanted,
            decreases row.len() - k,
        {
            assert(self.dep_kinds[consumer as int].len() == self.deps[consumer as int].len());
            if row[k] == dep && kinds[k] == kind {
                proof {
                    assert(self.row_edge(consumer as int, k as int) == wanted);
                    assert(self.model().edges.contains(self.row_edge(consumer as int, k as int)));
                }
                return true;
            }
            assert(self.row_edge(consumer as int, k as int) != wanted);
            k += 1;
        }
        proof {
            if self@.edges.contains(wanted) {
                let e = choose|e: int| 0 <= e < self@.edges.len() && self@.edges[e] == wanted;
                assert(self.in_row(e));
                assert(self.edges[e]@ == wanted);
            }
        }
        false
    }

    /// Whether an edge from `consumer` to `dep` would close a cycle.
    fn would_cycle(&self, consumer: usize, dep: usize) -> (r: bool)
        requires
            self.wf(),
            consumer < self.nodes.len(),
            dep < self.nodes.len(),
        ensures
            r == self@.would_cycle(consumer as int, dep as int),
    {
        if consumer == dep {
            proof {
                lemma_reaches_self(self@.relation(), dep as int);
            }
            return true;
        }
        if self.deps[dep].len() == 0 {
            // nothing leads on from `dep`
            proof {
                let rel = self@.relation();
                assert forall|v: int| !rel.contains((dep as int, v)) by {
                    if adjacency_relation(self.deps@).contains((dep as int, v)) {
                        let k = choose|k: int|
                            0 <= k < self.deps@[dep as int].len()
                                && #[trigger] self.deps@[dep as int][k] as int == v;
                    }
                }
                if reaches(rel, dep as int, consumer as int) {
                    lemma_sink_reaches_only_itself(rel, dep as int, consumer as int);
                }
            }
            return false;
        }
        if self.rdeps[consumer].len() == 0 {
            // nothing leads to `consumer`
            proof {
                let rel = self@.relation();
                let turned = transpose(rel);
                assert forall|v: int| !turned.contains((consumer as int, v)) by {
                    if adjacency_relation(self.rdeps@).contains((consumer as int, v)) {
                        let k = choose|k: int|
                            0 <= k < self.rdeps@[consumer as int].len()
                                && #[trigger] self.rdeps@[consumer as int][k] as int == v;
                    }
                }
                lemma_transpose_reaches(rel, consumer as int, dep as int);
                if reaches(turned, consumer as int, dep as int) {
                    lemma_sink_reaches_only_itself(turned, consumer as int, dep as int);
                }
            }
            return false;
        }
        let seen = reachable_from(&self.deps, dep);
        seen[consumer]
    }

    /// Adds the edge of kind `kind` from `consumer` to `dep`.
    fn insert_edge(&mut self, consumer: usize, dep: usize, kind: DependencyKind)
        requires
            old(self).wf(),
            consumer < old(self).nodes.len(),
            dep < old(self).nodes.len(),
            !old(self)@.has_edge_of(consumer as int, dep as int, kind),
            !old(self)@.would_cycle(consumer as int, dep as int),
        ensures
            final(self).wf(),
            final(self)@ == old(self)@.with_edge(consumer as int, dep as int, kind),
    {
        proof {
            lemma_with_edge(self@, consumer as int, dep as int, kind);
        }
        let edge = Edge { consumer, dependency: dep, kind };
        self.edges.push(edge);
        self.deps[consumer].push(dep);
        self.dep_kinds[consumer].push(kind);
        self.rdeps[dep].push(consumer);
        proof {
            let was = old(self);
            let at = was.deps[consumer as int].len() as int;
            assert(self@.edges =~= was@.edges.push(edge@));
            lemma_adjacency_new_entry(was.deps@, self.deps@, consumer as int, dep);
            lemma_adjacency_new_entry(was.rdeps@, self.rdeps@, dep as int, consumer);
            assert(adjacency_relation(self.rdeps@) =~= transpose(self@.relation()));
            assert forall|u: int|
                0 <= u < self.nodes.len() implies (#[trigger] self.dep_kinds[u]).len()
                == self.deps[u].len() by {
                assert(was.dep_kinds[u].len() == was.deps[u].len());
            }
            assert forall|u: int, k: int|
                0 <= u < self.nodes.len() && 0 <= k < self.deps[u].len() implies self.model().edges.contains(
                #[trigger] self.row_edge(u, k)) by {
                assert(was.dep_kinds[u].len() == was.deps[u].len());
                if u == consumer && k == at {
                    assert(self.row_edge(u, k) == edge@);
                    assert(self.model().edges[was.edges.len() as int] == edge@);
                } else {
                    let x = was.row_edge(u, k);
                    assert(self.row_edge(u, k) == x);
                    assert(was.model().edges.contains(x));
                    let e = choose|e: int| 0 <= e < was.model().edges.len() && was.model().edges[e] == x;
                    assert(self.model().edges[e] == x);
                }
            }
            assert forall|e: int| 0 <= e < self.edges.len() implies #[trigger] self.in_row(e) by {
                if e < was.edges.len() {
                    assert(was.in_row(e));
                    let u = was.edges[e].consumer as int;
                    assert(0 <= was.model().edges[e].consumer < was.nodes.len());
                    assert(was.dep_kinds[u].len() == was.deps[u].len());
                    let k = choose|k: int|
                        0 <= k < was.deps[u].len() && #[trigger] was.row_edge(u, k) == was.edges[e]@;
                    assert(self.row_edge(u, k) == self.edges[e]@);
                } else {
                    assert(was.dep_kinds[consumer as int].len() == was.deps[consumer as int].len());
                    assert(self.row_edge(consumer as int, at) == self.edges[e]@);
                }
            }
            assert forall|i: int| 0 <= i < self.nodes.len() implies #[trigger] self.filed(i) by {
                assert(was.filed(i));
            }
        }
    }

    /// Takes note that node `consumer` needs `dep` for `kind`: gives `dep` a node, and adds
    /// the edge unless an edge of that kind is there or the edge would close a cycle. Says
    /// whether the edge was turned down.
    fn link(&mut self, consumer: usize, dep: &PackageIdent, kind: DependencyKind) -> (rejected: bool)
        requires
            old(self).wf(),
            consumer < old(self).nodes.len(),
            crate::ident::valid_part(dep@.origin),
            crate::ident::valid_part(dep@.name),
        ensures
            final(self).wf(),
            final(self)@ == old(self)@.link(
                consumer as int,
                DeclaredView { origin: dep@.origin, name: dep@.name, kind: kind },
            ),
            rejected == old(self)@.link_rejected(
                consumer as int,
                DeclaredView { origin: dep@.origin, name: dep@.name, kind: kind },
            ),
            final(self).nodes.len() >= old(self).nodes.len(),
            final(self).edges.len() >= old(self).edges.len(),
    {
        let d = self.ensure_node(&dep.origin, &dep.name);
        let other = match kind {
            DependencyKind::Runtime => DependencyKind::Build,
            DependencyKind::Build => DependencyKind::Runtime,
        };
        if self.has_edge_at(consumer, d, kind) {
            false
        } else if self.has_edge_at(consumer, d, other) {
            // an edge between the two is there, so that one more closes no cycle
            proof {
                assert(self@.relation().contains((consumer as int, d as int)));
            }
            self.insert_edge(consumer, d, kind);
            false
        } else if self.would_cycle(consumer, d) {
            true
        } else {
            self.insert_edge(consumer, d, kind);
            false
        }
    }

    /// Ingests one package record. A record that is malformed or for another platform is
    /// turned away and leaves the graph as it was. Otherwise the record's package gets its
    /// node, or its node the record's version where that is not lower than the stored one;
    /// then each dependency, those needed to run first and, where `include_build_deps` is
    /// set, those needed only to build after them, gets a node and an edge of its kind
    /// from the package, except where that edge is there already or would close a cycle.
    pub fn extend(&mut self, record: &PackageRecord, include_build_deps: bool) -> (r: Result<
        ExtendOutcome,
        RecordError,
    >)
        requires
            old(self).wf(),
        ensures
            final(self).wf(),
            final(self)@ == old(self)@.offer(record@, include_build_deps),
            match r {
                Ok(o) => {
                    &&& record@.verdict_for(old(self)@.target) is Ok
                    &&& o.edges_added == final(self)@.edges.len() - old(self)@.edges.len()
                    &&& o.edges_rejected == old(self)@.extend_rejected(record@, include_build_deps)
                    &&& o.nodes_touched == final(self)@.nodes.len() - old(self)@.nodes.len() + (
                    if old(self)@.has_node(record@.ident.origin, record@.ident.name) {
                        1int
                    } else {
                        0int
                    })
                },
                Err(e) => record@.verdict_for(old(self)@.target) == Err::<(), RecordError>(e),
            },
    {
        match record.validate() {
            Err(e) => {
                return Err(e);
            },
            Ok(t) => {
                if t != self.target {
                    return Err(RecordError::TargetMismatch);
                }
            },
        }
        let ghost first = declared(ident_views(record.deps@), DependencyKind::Runtime);
        let ghost second = declared(ident_views(record.build_deps@), DependencyKind::Build);
        let mut wanted: Vec<(&PackageIdent, DependencyKind)> = Vec::new();
        let mut k: usize = 0;
        while k < record.deps.len()
            invariant
                k <= record.deps.len(),
                first == declared(ident_views(record.deps@), DependencyKind::Runtime),
                declared_views(wanted@) =~= first.take(k as int),
            decreases record.deps.len() - k,
        {
            let ghost sofar = declared_views(wanted@);
            wanted.push((&record.deps[k], DependencyKind::Runtime));
            proof {
                let goal = first.take(k + 1);
                assert(sofar.len() == k);
                assert(wanted@.len() == k + 1);
                assert(first.len() == record.deps@.len());
                assert(declared_views(wanted@).len() == goal.len());
                assert forall|m: int| 0 <= m < goal.len() implies declared_views(wanted@)[m]
                    == goal[m] by {
                    if m < k {
                        assert(declared_views(wanted@)[m] == sofar[m]);
                    }
                }
            }
            k += 1;
        }
        assert(first.take(k as int) =~= first);
        if include_build_deps {
            k = 0;
            while k < record.build_deps.len()
                invariant
                    k <= record.build_deps.len(),
                    second == declared(ident_views(record.build_deps@), DependencyKind::Build),
                    declared_views(wanted@) =~= first + second.take(k as int),
                decreases record.build_deps.len() - k,
            {
                let ghost sofar = declared_views(wanted@);
                wanted.push((&record.build_deps[k], DependencyKind::Build));
                proof {
                    let goal = first + second.take(k + 1);
                    assert(sofar.len() == first.len() + k);
                    assert(wanted@.len() == first.len() + k + 1);
                    assert(second.len() == record.build_deps@.len());
                    assert(declared_views(wanted@).len() == goal.len());
                    assert forall|m: int| 0 <= m < goal.len() implies declared_views(wanted@)[m]
                        == goal[m] by {
                        if m < sofar.len() {
                            assert(declared_views(wanted@)[m] == sofar[m]);
                        }
                    }
                }
                k += 1;
            }
            assert(second.take(k as int) =~= second);
        }
        let ghost deps = record@.wanted(include_build_deps);
        assert(declared_views(wanted@) =~= deps);
        proof {
            lemma_wanted_valid(record@, include_build_deps);
        }
        let nodes_before: usize = self.nodes.len();
        let edges_before: usize = self.edges.len();
        let (consumer, existed) = self.touch(&record.ident);
        let ghost start = self@;
        let mut rejected: usize = 0;
        k = 0;
        while k < wanted.len()
            invariant
                k <= wanted.len(),
                rejected <= k,
                self.wf(),
                consumer < self.nodes.len(),
                declared_views(wanted@) == deps,
                all_declared_valid(deps),
                self@ == start.link_all(consumer as int, deps.take(k as int)),
                rejected == start.rejected_in(consumer as int, deps.take(k as int)),
                nodes_before <= self.nodes.len(),
                edges_before <= self.edges.len(),
                existed ==> nodes_before >= 1,
            decreases wanted.len() - k,
        {
            proof {
                assert(deps.take(k + 1).drop_last() =~= deps.take(k as int));
                assert(deps.take(k + 1).last() == deps[k as int]);
                assert(declared_views(wanted@)[k as int] == deps[k as int]);
                assert(deps[k as int].valid());
            }
            let (dep, kind) = wanted[k];
            if self.link(consumer, dep, kind) {
                rejected += 1;
            }
            k += 1;
        }
        assert(deps.take(k as int) =~= deps);
        let touched: usize = if existed {
            self.nodes.len() - nodes_before + 1
        } else {
            self.nodes.len() - nodes_before
        };
        Ok(
            ExtendOutcome {
                nodes_touched: touched,
                edges_added: self.edges.len() - edges_before,
                edges_rejected: rejected,
            },
        )
    }
}

} // verus!
