//! The build order: a topological order of the graph in which, wherever there is
//! a choice, the package with the least origin and name comes first.

use vstd::prelude::*;
use crate::graph::DependencyGraph;
use crate::ident::{IdentView, PackageIdent};
use crate::model::{lemma_edge_joins_nodes, lemma_index_of_node, GraphView};
use crate::reach::{is_last_of, lemma_acyclic_has_last};
use crate::record::ident_views;
use crate::search::{
    adjacency_relation, count_true, lemma_count_true_finds_false, lemma_count_true_update,
};
use crate::text::{chars_less, chars_of, lemma_lex_irreflexive, lemma_lex_total, lemma_lex_transitive, lex_less};

verus! {

/// The order of logical packages: by origin, and within one origin by name, each
/// compared character by character.
pub open spec fn key_less(a: IdentView, b: IdentView) -> bool {
    lex_less(a.origin, b.origin) || (a.origin == b.origin && lex_less(a.name, b.name))
}

pub proof fn lemma_key_less_irreflexive(a: IdentView)
    ensures
        !key_less(a, a),
{
    lemma_lex_irreflexive(a.origin);
    lemma_lex_irreflexive(a.name);
}

pub proof fn lemma_key_less_transitive(a: IdentView, b: IdentView, c: IdentView)
    requires
        key_less(a, b),
        key_less(b, c),
    ensures
        key_less(a, c),
{
    lemma_lex_irreflexive(a.origin);
    lemma_lex_irreflexive(b.origin);
    if lex_less(a.origin, b.origin) && lex_less(b.origin, c.origin) {
        lemma_lex_transitive(a.origin, b.origin, c.origin);
    } else if a.origin == b.origin && b.origin == c.origin {
        lemma_lex_transitive(a.name, b.name, c.name);
    }
}

/// Two identifiers of which neither comes before the other name the same logical package.
pub proof fn lemma_key_less_total(a: IdentView, b: IdentView)
    ensures
        a.same_package(b) || key_less(a, b) || key_less(b, a),
{
    lemma_lex_total(a.origin, b.origin);
    lemma_lex_total(a.name, b.name);
}

/// The numbers of the entries of `done` that are set.
pub open spec fn marked(done: Seq<bool>) -> Set<int> {
    Set::new(|i: int| 0 <= i < done.len() && done[i])
}

/// A sequence of node numbers, as integers.
pub open spec fn as_ints(s: Seq<usize>) -> Seq<int> {
    s.map_values(|x: usize| x as int)
}

impl GraphView {
    /// Node `u` can be built once the nodes in `done` are: it is not among them, and
    /// everything it depends on is.
    pub open spec fn ready(self, done: Set<int>, u: int) -> bool {
        &&& 0 <= u < self.nodes.len()
        &&& !done.contains(u)
        &&& forall|v: int| #[trigger] self.has_edge(u, v) ==> done.contains(v)
    }

    /// Node `u` is the one to build after the nodes in `done`: it is ready, and no ready
    /// node has a lesser origin and name.
    pub open spec fn next_in_order(self, done: Set<int>, u: int) -> bool {
        &&& self.ready(done, u)
        &&& forall|v: int| #[trigger]
            self.ready(done, v) ==> !key_less(self.nodes[v].ident, self.nodes[u].ident)
    }

    /// `order` is the build order of the graph: it names every node, and each node named
    /// is the one to build after those named before it.
    pub open spec fn is_build_order(self, order: Seq<int>) -> bool {
        &&& order.len() == self.nodes.len()
        &&& forall|k: int|
            0 <= k < order.len() ==> self.next_in_order(order.take(k).to_set(), #[trigger] order[k])
    }

    /// The nodes that stand for the given logical packages.
    pub open spec fn positions(self, idents: Seq<IdentView>) -> Seq<int> {
        idents.map_values(|d: IdentView| self.index_of(d.origin, d.name))
    }
}

/// A build order names each node once.
pub proof fn lemma_build_order_names_each_once(g: GraphView, order: Seq<int>)
    requires
        g.is_build_order(order),
    ensures
        order.no_duplicates(),
        forall|k: int| 0 <= k < order.len() ==> 0 <= #[trigger] order[k] < g.nodes.len(),
{
    assert forall|i: int, j: int| 0 <= i < order.len() && 0 <= j < order.len() && i != j implies order[i]
        != order[j] by {
        let (a, b) = if i < j {
            (i, j)
        } else {
            (j, i)
        };
        assert(g.next_in_order(order.take(b).to_set(), order[b]));
        assert(order.take(b)[a] == order[a]);
        assert(order.take(b).contains(order[a]));
    }
    assert forall|k: int| 0 <= k < order.len() implies 0 <= #[trigger] order[k] < g.nodes.len() by {
        assert(g.next_in_order(order.take(k).to_set(), order[k]));
    }
}

/// In a build order every dependency stands before the package that needs it.
pub proof fn lemma_dependencies_come_first(g: GraphView, order: Seq<int>, i: int, j: int)
    requires
        g.is_build_order(order),
        0 <= i < order.len(),
        0 <= j < order.len(),
        g.has_edge(order[i], order[j]),
    ensures
        j < i,
{
    lemma_build_order_names_each_once(g, order);
    assert(g.next_in_order(order.take(i).to_set(), order[i]));
    assert(order.take(i).contains(order[j]));
    let k = choose|k: int| 0 <= k < order.take(i).len() && order.take(i)[k] == order[j];
    assert(order[k] == order[j]);
}

/// A graph has one build order only.
pub proof fn law_build_order_is_unique(g: GraphView, first: Seq<int>, second: Seq<int>)
    requires
        g.wf(),
        g.is_build_order(first),
        g.is_build_order(second),
    ensures
        first == second,
{
    lemma_same_up_to(g, first, second, first.len() as int);
    assert(first.take(first.len() as int) =~= first);
    assert(second.take(second.len() as int) =~= second);
}

proof fn lemma_same_up_to(g: GraphView, first: Seq<int>, second: Seq<int>, k: int)
    requires
        g.wf(),
        g.is_build_order(first),
        g.is_build_order(second),
        0 <= k <= first.len(),
    ensures
        first.take(k) == second.take(k),
    decreases k,
{
    if k == 0 {
        assert(first.take(0) =~= second.take(0));
    } else {
        lemma_same_up_to(g, first, second, k - 1);
        let done = first.take(k - 1).to_set();
        let a = first[k - 1];
        let b = second[k - 1];
        assert(g.next_in_order(done, a));
        assert(g.next_in_order(second.take(k - 1).to_set(), b));
        assert(g.ready(done, a) && g.ready(done, b));
        lemma_key_less_total(g.nodes[a].ident, g.nodes[b].ident);
        if a < b {
            assert(!g.nodes[a].ident.same_package(g.nodes[b].ident));
        }
        if b < a {
            assert(!g.nodes[b].ident.same_package(g.nodes[a].ident));
        }
        assert(first.take(k) =~= first.take(k - 1).push(a));
        assert(second.take(k) =~= second.take(k - 1).push(b));
    }
}

proof fn lemma_push_to_set(s: Seq<int>, x: int)
    ensures
        s.push(x).to_set() =~= s.to_set().insert(x),
{
    let grown = s.push(x);
    assert forall|y: int| grown.to_set().contains(y) <==> s.to_set().insert(x).contains(y) by {
        if grown.contains(y) {
            let k = choose|k: int| 0 <= k < grown.len() && grown[k] == y;
            if k < s.len() {
                assert(s[k] == y);
            }
        }
        if s.contains(y) {
            let k = choose|k: int| 0 <= k < s.len() && s[k] == y;
            assert(grown[k] == y);
        }
        if y == x {
            assert(grown[s.len() as int] == x);
        }
    }
}

impl DependencyGraph {
    /// The characters of every node's origin, and of every node's name.
    fn node_keys(&self) -> (r: (Vec<Vec<char>>, Vec<Vec<char>>))
        ensures
            r.0.len() == self.nodes.len(),
            r.1.len() == self.nodes.len(),
            forall|i: int|
                0 <= i < self.nodes.len() ==> (#[trigger] r.0[i])@ == self.nodes[i].ident.origin@,
            forall|i: int|
                0 <= i < self.nodes.len() ==> (#[trigger] r.1[i])@ == self.nodes[i].ident.name@,
    {
        let mut origins: Vec<Vec<char>> = Vec::new();
        let mut names: Vec<Vec<char>> = Vec::new();
        let mut i: usize = 0;
        while i < self.nodes.len()
            invariant
                i <= self.nodes.len(),
                origins.len() == i,
                names.len() == i,
                forall|k: int| 0 <= k < i ==> (#[trigger] origins[k])@ == self.nodes[k].ident.origin@,
                forall|k: int| 0 <= k < i ==> (#[trigger] names[k])@ == self.nodes[k].ident.name@,
            decreases self.nodes.len() - i,
        {
            origins.push(chars_of(self.nodes[i].ident.origin.as_str()));
            names.push(chars_of(self.nodes[i].ident.name.as_str()));
            i += 1;
        }
        (origins, names)
    }

    /// Whether node `u` can be built once the marked nodes are.
    fn is_ready(&self, done: &Vec<bool>, u: usize) -> (r: bool)
        requires
            self.wf(),
            done.len() == self.nodes.len(),
            u < self.nodes.len(),
        ensures
            r == self@.ready(marked(done@), u as int),
    {
        proof {
            self.lemma_unfold();
        }
        if done[u] {
            return false;
        }
        let row = &self.deps[u];
        let ghost rel = adjacency_relation(self.deps@);
        let mut k: usize = 0;
        while k < row.len()
            invariant
                k <= row.len(),
                self.consistent(),
                self@ == self.model(),
                u < self.deps.len(),
                done.len() == self.nodes.len(),
                row@ == self.deps@[u as int]@,
                rel == adjacency_relation(self.deps@),
                forall|m: int| 0 <= m < k ==> marked(done@).contains(#[trigger] row@[m] as int),
            decreases row.len() - k,
        {
            let v = row[k];
            assert(self.deps@[u as int][k as int] == v);
            assert(rel.contains((u as int, v as int)));
            if !done[v] {
                assert(self.model().has_edge(u as int, v as int));
                return false;
            }
            k += 1;
        }
        proof {
            assert forall|v: int| #[trigger] self.model().has_edge(u as int, v) implies marked(
                done@,
            ).contains(v) by {
                assert(rel.contains((u as int, v)));
                let m = choose|m: int|
                    0 <= m < self.deps@[u as int].len() && #[trigger] self.deps@[u as int][m] as int
                        == v;
                assert(marked(done@).contains(row@[m] as int));
            }
        }
        true
    }

    /// The node to build after the marked ones, if any node is ready.
    fn pick_next(&self, done: &Vec<bool>, origins: &Vec<Vec<char>>, names: &Vec<Vec<char>>) -> (r:
        Option<usize>)
        requires
            self.wf(),
            done.len() == self.nodes.len(),
            origins.len() == self.nodes.len(),
            names.len() == self.nodes.len(),
            forall|i: int|
                0 <= i < self.nodes.len() ==> (#[trigger] origins[i])@ == self@.nodes[i].ident.origin,
            forall|i: int|
                0 <= i < self.nodes.len() ==> (#[trigger] names[i])@ == self@.nodes[i].ident.name,
        ensures
            r matches Some(b) ==> b < self.nodes.len() && self@.next_in_order(
                marked(done@),
                b as int,
            ),
            r is None ==> forall|u: int| !self@.ready(marked(done@), u),
    {
        proof {
            self.lemma_unfold();
        }
        let ghost g = self@;
        let ghost d = marked(done@);
        let n = self.nodes.len();
        let mut best: Option<usize> = None;
        let mut u: usize = 0;
        while u < n
            invariant
                u <= n,
                n == self.nodes.len(),
                g == self@,
                g.nodes.len() == n,
                d == marked(done@),
                self.wf(),
                done.len() == n,
                origins.len() == n,
                names.len() == n,
                forall|i: int| 0 <= i < n ==> (#[trigger] origins[i])@ == g.nodes[i].ident.origin,
                forall|i: int| 0 <= i < n ==> (#[trigger] names[i])@ == g.nodes[i].ident.name,
                best is None ==> forall|v: int| 0 <= v < u ==> !g.ready(d, v),
                best matches Some(b) ==> b < u && g.ready(d, b as int) && forall|v: int|
                    0 <= v < u && #[trigger] g.ready(d, v) ==> !key_less(
                        g.nodes[v].ident,
                        g.nodes[b as int].ident,
                    ),
            decreases n - u,
        {
            if self.is_ready(done, u) {
                let better = match best {
                    None => true,
                    Some(b) => {
                        assert(origins[u as int]@ == g.nodes[u as int].ident.origin);
                        assert(origins[b as int]@ == g.nodes[b as int].ident.origin);
                        assert(names[u as int]@ == g.nodes[u as int].ident.name);
                        assert(names[b as int]@ == g.nodes[b as int].ident.name);
                        proof {
                            lemma_lex_total(
                                g.nodes[u as int].ident.origin,
                                g.nodes[b as int].ident.origin,
                            );
                        }
                        chars_less(&origins[u], &origins[b]) || (!chars_less(
                            &origins[b],
                            &origins[u],
                        ) && chars_less(&names[u], &names[b]))
                    },
                };
                if better {
                    proof {
                        lemma_key_less_irreflexive(g.nodes[u as int].ident);
                        if let Some(b) = best {
                            assert(key_less(g.nodes[u as int].ident, g.nodes[b as int].ident));
                            assert forall|v: int| 0 <= v < u && #[trigger] g.ready(d, v) implies !key_less(
                                g.nodes[v].ident,
                                g.nodes[u as int].ident,
                            ) by {
                                if key_less(g.nodes[v].ident, g.nodes[u as int].ident) {
                                    lemma_key_less_transitive(
                                        g.nodes[v].ident,
                                        g.nodes[u as int].ident,
                                        g.nodes[b as int].ident,
                                    );
                                }
                            }
                        }
                    }
                    best = Some(u);
                } else {
                    proof {
                        if let Some(b) = best {
                            lemma_lex_irreflexive(g.nodes[b as int].ident.origin);
                            assert(!key_less(g.nodes[u as int].ident, g.nodes[b as int].ident));
                        }
                    }
                }
            }
            u += 1;
        }
        best
    }

    /// The build order by node numbers.
    pub(crate) fn build_order_indices(&self) -> (order: Vec<usize>)
        requires
            self.wf(),
        ensures
            self@.is_build_order(as_ints(order@)),
    {
        proof {
            self.lemma_unfold();
        }
        let ghost g = self@;
        let n = self.nodes.len();
        let (origins, names) = self.node_keys();
        let mut done: Vec<bool> = vec![false; n];
        let mut order: Vec<usize> = Vec::new();
        assert(forall|i: int| 0 <= i < n ==> !(#[trigger] done@[i]));
        proof {
            lemma_none_marked(done@);
            assert(marked(done@) =~= as_ints(order@).to_set());
        }
        while order.len() < n
            invariant
                n == self.nodes.len(),
                g == self@,
                g == self.model(),
                self.wf(),
                self.consistent(),
                done.len() == n,
                order.len() <= n,
                origins.len() == n,
                names.len() == n,
                forall|i: int| 0 <= i < n ==> (#[trigger] origins[i])@ == g.nodes[i].ident.origin,
                forall|i: int| 0 <= i < n ==> (#[trigger] names[i])@ == g.nodes[i].ident.name,
                count_true(done@) == order.len(),
                marked(done@) == as_ints(order@).to_set(),
                forall|k: int|
                    0 <= k < order.len() ==> g.next_in_order(
                        as_ints(order@).take(k).to_set(),
                        #[trigger] as_ints(order@)[k],
                    ),
            decreases n - order.len(),
        {
            let ghost picked = as_ints(order@);
            let ghost before = done@;
            match self.pick_next(&done, &origins, &names) {
                Some(b) => {
                    proof {
                        assert(!marked(before).contains(b as int));
                        lemma_count_true_update(before, b as int);
                        lemma_push_to_set(picked, b as int);
                    }
                    done[b] = true;
                    order.push(b);
                    proof {
                        let grown = as_ints(order@);
                        assert(grown =~= picked.push(b as int));
                        assert(marked(done@) =~= marked(before).insert(b as int));
                        assert forall|k: int| 0 <= k < order.len() implies g.next_in_order(
                            grown.take(k).to_set(),
                            #[trigger] grown[k],
                        ) by {
                            if k < picked.len() {
                                assert(grown.take(k) =~= picked.take(k));
                                assert(grown[k] == picked[k]);
                            } else {
                                assert(grown.take(k) =~= picked);
                            }
                        }
                    }
                },
                None => {
                    proof {
                        let start = lemma_count_true_finds_false(before);
                        let left = |x: int| 0 <= x < n && !before[x];
                        let u = lemma_acyclic_has_last(g.relation(), n as int, left, start);
                        assert(is_last_of(g.relation(), left, u));
                        assert forall|v: int| #[trigger] g.has_edge(u, v) implies marked(
                            before,
                        ).contains(v) by {
                            assert(g.relation().contains((u, v)));
                            lemma_edge_joins_nodes(g, u, v);
                            assert(!left(v));
                        }
                        assert(g.ready(marked(before), u));
                        assert(false);
                    }
                },
            }
        }
        order
    }

    /// The order in which to build the packages of the graph: every package after all that
    /// it depends on, and, wherever several could come next, the one with the least origin
    /// and, within one origin, the least name. The graph decides the order alone: the same
    /// graph always gives the same order. Each package is chosen by a pass over all nodes
    /// and their dependencies, so that the time grows with the square of the graph's size.
    pub fn build_order(&self) -> (r: Vec<PackageIdent>)
        requires
            self.wf(),
        ensures
            r.len() == self@.nodes.len(),
            self@.is_build_order(self@.positions(ident_views(r@))),
            forall|k: int|
                0 <= k < r.len() ==> (#[trigger] r[k])@ == self@.nodes[self@.positions(
                    ident_views(r@),
                )[k]].ident,
            self@.positions(ident_views(r@)).no_duplicates(),
            forall|i: int, j: int|
                0 <= i < r.len() && 0 <= j < r.len() && self@.has_edge(
                    self@.positions(ident_views(r@))[i],
                    self@.positions(ident_views(r@))[j],
                ) ==> j < i,
    {
        proof {
            self.lemma_unfold();
        }
        let ghost g = self@;
        let order = self.build_order_indices();
        let ghost ints = as_ints(order@);
        proof {
            lemma_build_order_names_each_once(g, ints);
        }
        let mut r: Vec<PackageIdent> = Vec::new();
        let mut k: usize = 0;
        while k < order.len()
            invariant
                k <= order.len(),
                r.len() == k,
                g == self@,
                g == self.model(),
                ints == as_ints(order@),
                forall|m: int| 0 <= m < order.len() ==> 0 <= #[trigger] ints[m] < g.nodes.len(),
                forall|m: int| 0 <= m < k ==> (#[trigger] r[m])@ == g.nodes[ints[m]].ident,
            decreases order.len() - k,
        {
            assert(0 <= ints[k as int] < g.nodes.len());
            r.push(self.nodes[order[k]].ident.clone());
            k += 1;
        }
        proof {
            let found = g.positions(ident_views(r@));
            assert(found.len() == ints.len());
            assert forall|m: int| 0 <= m < ints.len() implies found[m] == ints[m] by {
                assert(r[m]@ == g.nodes[ints[m]].ident);
                lemma_index_of_node(g, ints[m]);
            }
            assert(found =~= ints);
            assert forall|i: int, j: int|
                0 <= i < r.len() && 0 <= j < r.len() && g.has_edge(found[i], found[j]) implies j
                < i by {
                lemma_dependencies_come_first(g, found, i, j);
            }
        }
        r
    }
}

proof fn lemma_none_marked(done: Seq<bool>)
    requires
        forall|i: int| 0 <= i < done.len() ==> !(#[trigger] done[i]),
    ensures
        count_true(done) == 0,
        marked(done) =~= Set::<int>::empty(),
    decreases done.len(),
{
    if done.len() > 0 {
        lemma_none_marked(done.drop_last());
    }
}

} // verus!
