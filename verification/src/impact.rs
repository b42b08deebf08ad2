//! The reverse query: which packages depend, directly or through others, on a
//! package that changed.

use vstd::prelude::*;
use crate::graph::DependencyGraph;
use crate::ident::{IdentView, PackageIdent};
use crate::model::GraphView;
use crate::reach::lemma_transpose_reaches;
use crate::record::ident_views;
use crate::search::reachable_from;

verus! {

impl GraphView {
    /// The nodes below `k`, in rising order, that depend on node `s`, directly or through
    /// others; `s` itself is not among them.
    pub open spec fn dependents_below(self, s: int, k: int) -> Seq<int>
        decreases k,
    {
        if k <= 0 {
            Seq::empty()
        } else {
            let rest = self.dependents_below(s, k - 1);
            if k - 1 != s && self.depends_on(k - 1, s) {
                rest.push(k - 1)
            } else {
                rest
            }
        }
    }

    /// All nodes that depend on node `s`, in rising order.
    pub open spec fn dependents(self, s: int) -> Seq<int> {
        self.dependents_below(s, self.nodes.len() as int)
    }

    /// The nodes below `k`, in rising order, whose package has not been seen itself.
    pub open spec fn unresolved_below(self, k: int) -> Seq<int>
        decreases k,
    {
        if k <= 0 {
            Seq::empty()
        } else {
            let rest = self.unresolved_below(k - 1);
            if !self.nodes[k - 1].resolved {
                rest.push(k - 1)
            } else {
                rest
            }
        }
    }

    /// The identifiers of the packages that are known only as dependencies of others.
    pub open spec fn unresolved(self) -> Seq<IdentView> {
        self.unresolved_below(self.nodes.len() as int).map_values(|u: int| self.nodes[u].ident)
    }

    /// The identifiers of the packages that a change of `origin`/`name` reaches: those of
    /// the nodes that depend on its node. A package that the graph does not know reaches
    /// nothing.
    pub open spec fn impact(self, origin: Seq<char>, name: Seq<char>) -> Seq<IdentView> {
        if self.has_node(origin, name) {
            self.dependents(self.index_of(origin, name)).map_values(|u: int| self.nodes[u].ident)
        } else {
            Seq::empty()
        }
    }
}

/// The dependents of a node are exactly the other nodes that depend on it, each named once.
pub proof fn law_dependents_are_exact(g: GraphView, s: int, k: int)
    requires
        0 <= k,
    ensures
        forall|u: int|
            g.dependents_below(s, k).contains(u) <==> (0 <= u < k && u != s && g.depends_on(u, s)),
        g.dependents_below(s, k).no_duplicates(),
        g.dependents_below(s, k).len() <= k,
    decreases k,
{
    let d = g.dependents_below(s, k);
    if k > 0 {
        law_dependents_are_exact(g, s, k - 1);
        let rest = g.dependents_below(s, k - 1);
        if k - 1 != s && g.depends_on(k - 1, s) {
            assert forall|u: int| d.contains(u) <==> (0 <= u < k && u != s && g.depends_on(
                u,
                s,
            )) by {
                if d.contains(u) {
                    let i = choose|i: int| 0 <= i < d.len() && d[i] == u;
                    if i < rest.len() {
                        assert(rest[i] == u);
                        assert(rest.contains(u));
                    }
                }
                if 0 <= u < k && u != s && g.depends_on(u, s) {
                    if u == k - 1 {
                        assert(d[rest.len() as int] == u);
                    } else {
                        assert(rest.contains(u));
                        let i = choose|i: int| 0 <= i < rest.len() && rest[i] == u;
                        assert(d[i] == u);
                    }
                }
            }
            assert forall|i: int, j: int| 0 <= i < d.len() && 0 <= j < d.len() && i != j implies d[i]
                != d[j] by {
                if i < rest.len() {
                    assert(rest.contains(rest[i]));
                }
                if j < rest.len() {
                    assert(rest.contains(rest[j]));
                }
            }
        }
    }
}

/// The unresolved nodes are exactly the nodes that are not resolved, each named once.
pub proof fn law_unresolved_are_exact(g: GraphView, k: int)
    requires
        0 <= k <= g.nodes.len(),
    ensures
        forall|u: int| g.unresolved_below(k).contains(u) <==> (0 <= u < k && !g.nodes[u].resolved),
        g.unresolved_below(k).no_duplicates(),
    decreases k,
{
    let d = g.unresolved_below(k);
    if k > 0 {
        law_unresolved_are_exact(g, k - 1);
        let rest = g.unresolved_below(k - 1);
        if !g.nodes[k - 1].resolved {
            assert forall|u: int| d.contains(u) <==> (0 <= u < k && !g.nodes[u].resolved) by {
                if d.contains(u) {
                    let i = choose|i: int| 0 <= i < d.len() && d[i] == u;
                    if i < rest.len() {
                        assert(rest[i] == u);
                        assert(rest.contains(u));
                    }
                }
                if 0 <= u < k && !g.nodes[u].resolved {
                    if u == k - 1 {
                        assert(d[rest.len() as int] == u);
                    } else {
                        assert(rest.contains(u));
                        let i = choose|i: int| 0 <= i < rest.len() && rest[i] == u;
                        assert(d[i] == u);
                    }
                }
            }
            assert forall|i: int, j: int| 0 <= i < d.len() && 0 <= j < d.len() && i != j implies d[i]
                != d[j] by {
                if i < rest.len() {
                    assert(rest.contains(rest[i]));
                }
                if j < rest.len() {
                    assert(rest.contains(rest[j]));
                }
            }
        }
    }
}

impl DependencyGraph {
    /// The packages that some package depends on but whose own record has not been seen,
    /// in the order of their nodes.
    pub fn unresolved(&self) -> (r: Vec<PackageIdent>)
        requires
            self.wf(),
        ensures
            ident_views(r@) == self@.unresolved(),
    {
        proof {
            self.lemma_unfold();
        }
        let ghost g = self@;
        let mut found: Vec<PackageIdent> = Vec::new();
        let n = self.nodes.len();
        let mut u: usize = 0;
        assert(ident_views(found@) =~= g.unresolved_below(0).map_values(|x: int| g.nodes[x].ident));
        while u < n
            invariant
                u <= n,
                n == self.nodes.len(),
                g == self@,
                g == self.model(),
                ident_views(found@) =~= g.unresolved_below(u as int).map_values(
                    |x: int| g.nodes[x].ident,
                ),
            decreases n - u,
        {
            if !self.nodes[u].resolved {
                let ghost sofar = ident_views(found@);
                found.push(self.nodes[u].ident.clone());
                proof {
                    let rest = g.unresolved_below(u as int);
                    assert(g.unresolved_below(u + 1) == rest.push(u as int));
                    let goal = g.unresolved_below(u + 1).map_values(|x: int| g.nodes[x].ident);
                    assert(sofar.len() == rest.map_values(|x: int| g.nodes[x].ident).len());
                    assert(sofar.len() == rest.len());
                    assert(found@.len() == sofar.len() + 1);
                    assert(goal.len() == rest.len() + 1);
                    assert(ident_views(found@).len() == goal.len());
                    assert forall|m: int| 0 <= m < goal.len() implies ident_views(found@)[m]
                        == goal[m] by {
                        if m < sofar.len() {
                            assert(ident_views(found@)[m] == sofar[m]);
                        }
                    }
                }
            } else {
                assert(g.unresolved_below(u + 1) == g.unresolved_below(u as int));
            }
            u += 1;
        }
        found
    }

    /// The packages that have to be looked at again when `changed` changes: every package
    /// that depends on it, directly or through others, each named once, in the order of
    /// their nodes. Only origin and name of `changed` count. A package that the graph does
    /// not know, or that nothing depends on, gives the empty list.
    pub fn impacted_by(&self, changed: &PackageIdent) -> (r: Vec<PackageIdent>)
        requires
            self.wf(),
        ensures
            ident_views(r@) == self@.impact(changed@.origin, changed@.name),
    {
        proof {
            self.lemma_unfold();
        }
        let mut found: Vec<PackageIdent> = Vec::new();
        match self.find(&changed.origin, &changed.name) {
            None => {
                assert(ident_views(found@) =~= Seq::empty());
                found
            },
            Some(s) => {
                let seen = reachable_from(&self.rdeps, s);
                let ghost g = self@;
                let n = self.nodes.len();
                let mut u: usize = 0;
                proof {
                    assert forall|v: int| 0 <= v < n implies (#[trigger] seen[v] <==> g.depends_on(
                        v,
                        s as int,
                    )) by {
                        lemma_transpose_reaches(g.relation(), s as int, v);
                    }
                }
                while u < n
                    invariant
                        u <= n,
                        n == self.nodes.len(),
                        s < n,
                        self.wf(),
                        g == self@,
                        g == self.model(),
                        seen.len() == n,
                        forall|v: int|
                            0 <= v < n ==> (#[trigger] seen[v] <==> g.depends_on(v, s as int)),
                        ident_views(found@) =~= g.dependents_below(
                            s as int,
                            u as int,
                        ).map_values(|x: int| g.nodes[x].ident),
                    decreases n - u,
                {
                    if u != s && seen[u] {
                        let ghost sofar = ident_views(found@);
                        found.push(self.nodes[u].ident.clone());
                        proof {
                            assert(g.depends_on(u as int, s as int));
                            assert(g.dependents_below(s as int, u + 1) == g.dependents_below(
                                s as int,
                                u as int,
                            ).push(u as int));
                            let goal = g.dependents_below(s as int, u + 1).map_values(
                                |x: int| g.nodes[x].ident,
                            );
                            let rest = g.dependents_below(s as int, u as int);
                            assert(sofar.len() == rest.map_values(|x: int| g.nodes[x].ident).len());
                            assert(sofar.len() == rest.len());
                            assert(found@.len() == sofar.len() + 1);
                            assert(goal.len() == rest.len() + 1);
                            assert(ident_views(found@).len() == goal.len());
                            assert forall|m: int| 0 <= m < goal.len() implies ident_views(
                                found@,
                            )[m] == goal[m] by {
                                if m < sofar.len() {
                                    assert(ident_views(found@)[m] == sofar[m]);
                                }
                            }
                        }
                    } else {
                        assert(g.dependents_below(s as int, u + 1) == g.dependents_below(
                            s as int,
                            u as int,
                        ));
                    }
                    u += 1;
                }
                found
            },
        }
    }
}

} // verus!
