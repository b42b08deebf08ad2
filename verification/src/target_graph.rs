//! The router: one dependency graph for each supported platform, and the
//! ingestion of batches of package records into them.

use vstd::prelude::*;
use crate::graph::DependencyGraph;
use crate::model::{lemma_offer, GraphView};
use crate::record::{PackageRecord, RecordView};
use crate::target::{target_of, PackageTarget};

verus! {

/// The size of one platform's graph.
#[derive(Clone, Copy, Debug, PartialEq, Eq, Structural)]
pub struct TargetGraphStats {
    pub target: PackageTarget,
    pub node_count: usize,
    pub edge_count: usize,
}

/// One dependency graph for each platform that the router was made for.
pub struct TargetGraph {
    graphs: Vec<DependencyGraph>,
}

/// The views of a sequence of graphs.
pub open spec fn graph_views(s: Seq<DependencyGraph>) -> Seq<GraphView> {
    s.map_values(|g: DependencyGraph| g@)
}

/// The views of a sequence of records.
pub open spec fn record_views(s: Seq<PackageRecord>) -> Seq<RecordView> {
    s.map_values(|r: PackageRecord| r@)
}

/// Some graph of the sequence is for platform `t`.
pub open spec fn routes(graphs: Seq<GraphView>, t: PackageTarget) -> bool {
    exists|i: int| 0 <= i < graphs.len() && (#[trigger] graphs[i]).target == t
}

/// Where the graph for platform `t` stands, if there is one.
pub open spec fn slot(graphs: Seq<GraphView>, t: PackageTarget) -> int {
    choose|i: int| 0 <= i < graphs.len() && (#[trigger] graphs[i]).target == t
}

/// No two graphs of the sequence are for the same platform.
pub open spec fn distinct_targets(graphs: Seq<GraphView>) -> bool {
    forall|i: int, j: int|
        0 <= i < j < graphs.len() ==> (#[trigger] graphs[i]).target != (#[trigger] graphs[j]).target
}

/// The empty graphs that a router for `targets` starts with: one for each platform, in
/// the order of first mention.
pub open spec fn fresh_graphs(targets: Seq<PackageTarget>) -> Seq<GraphView>
    decreases targets.len(),
{
    if targets.len() == 0 {
        Seq::empty()
    } else {
        let before = fresh_graphs(targets.drop_last());
        if routes(before, targets.last()) {
            before
        } else {
            before.push(GraphView::empty(targets.last()))
        }
    }
}

/// The stats entry that reports on graph `g`.
pub open spec fn stats_of(g: GraphView) -> TargetGraphStats {
    TargetGraphStats {
        target: g.target,
        node_count: g.nodes.len() as usize,
        edge_count: g.edges.len() as usize,
    }
}

impl View for TargetGraph {
    type V = Seq<GraphView>;

    open spec fn view(&self) -> Seq<GraphView> {
        graph_views(self.graphs())
    }
}

impl Default for TargetGraph {
    /// A router without any graph: every record is passed over.
    fn default() -> (r: Self)
        ensures
            r.wf(),
            r@ == Seq::<GraphView>::empty(),
    {
        let r = TargetGraph { graphs: Vec::new() };
        assert(r@ =~= Seq::<GraphView>::empty());
        r
    }
}

impl TargetGraph {
    /// The graphs that the router holds, in the order in which it reports them.
    pub closed spec fn graphs(&self) -> Seq<DependencyGraph> {
        self.graphs@
    }

    /// Every graph is well formed, and no two are for the same platform.
    pub open spec fn wf(&self) -> bool {
        &&& forall|i: int| 0 <= i < self.graphs().len() ==> (#[trigger] self.graphs()[i]).wf()
        &&& distinct_targets(self@)
    }

    /// A router for every supported platform, each with an empty graph.
    pub fn new() -> (r: Self)
        ensures
            r.wf(),
            r@ == seq![
                GraphView::empty(PackageTarget::X8664Linux),
                GraphView::empty(PackageTarget::X8664LinuxKernel2),
                GraphView::empty(PackageTarget::X8664Windows),
            ],
    {
        let mut graphs: Vec<DependencyGraph> = Vec::new();
        graphs.push(DependencyGraph::new(PackageTarget::X8664Linux));
        graphs.push(DependencyGraph::new(PackageTarget::X8664LinuxKernel2));
        graphs.push(DependencyGraph::new(PackageTarget::X8664Windows));
        let r = TargetGraph { graphs };
        assert(r@ =~= seq![
            GraphView::empty(PackageTarget::X8664Linux),
            GraphView::empty(PackageTarget::X8664LinuxKernel2),
            GraphView::empty(PackageTarget::X8664Windows),
        ]);
        r
    }

    /// A router for the platforms named in `targets` only, each with an empty graph. A
    /// platform named twice gets one graph.
    pub fn with_targets(targets: &[PackageTarget]) -> (r: Self)
        ensures
            r.wf(),
            r@ == fresh_graphs(targets@),
    {
        let mut r = TargetGraph { graphs: Vec::new() };
        assert(r@ =~= fresh_graphs(targets@.take(0)));
        let mut k: usize = 0;
        while k < targets.len()
            invariant
                k <= targets.len(),
                r.wf(),
                r@ == fresh_graphs(targets@.take(k as int)),
            decreases targets.len() - k,
        {
            let t = targets[k];
            proof {
                assert(targets@.take(k + 1).drop_last() =~= targets@.take(k as int));
                assert(targets@.take(k + 1).last() == t);
            }
            if r.position(t).is_none() {
                let ghost before = r@;
                r.graphs.push(DependencyGraph::new(t));
                proof {
                    assert(r@ =~= before.push(GraphView::empty(t)));
                    assert forall|i: int, j: int| 0 <= i < j < r@.len() implies (
                    #[trigger] r@[i]).target != (#[trigger] r@[j]).target by {
                        if j < before.len() {
                            assert(before[i].target != before[j].target);
                        } else {
                            assert(before[i].target != t);
                        }
                    }
                }
            }
            k += 1;
        }
        assert(targets@.take(k as int) =~= targets@);
        r
    }

    /// Where the graph for platform `t` stands, if the router has one.
    fn position(&self, t: PackageTarget) -> (r: Option<usize>)
        requires
            self.wf(),
        ensures
            r is Some <==> routes(self@, t),
            r matches Some(i) ==> i < self.graphs().len() && i == slot(self@, t),
    {
        let mut i: usize = 0;
        while i < self.graphs.len()
            invariant
                i <= self.graphs.len(),
                self.wf(),
                forall|k: int| 0 <= k < i ==> (#[trigger] self@[k]).target != t,
            decreases self.graphs.len() - i,
        {
            if self.graphs[i].target() == t {
                proof {
                    let j = slot(self@, t);
                    assert(self@[i as int].target == t);
                    if j < i {
                        assert(self@[j].target != self@[i as int].target);
                    }
                    if i < j {
                        assert(self@[i as int].target != self@[j].target);
                    }
                }
                return Some(i);
            }
            i += 1;
        }
        None
    }

    /// The graph for the platform that `target_str` names. There is none where the string
    /// names no supported platform, or one that the router was not made for.
    pub fn graph(&self, target_str: &str) -> (r: Option<&DependencyGraph>)
        requires
            self.wf(),
        ensures
            r is Some <==> (target_of(target_str@) matches Some(t) && routes(self@, t)),
            r matches Some(g) ==> g.wf() && *g == self.graphs()[slot(
                self@,
                target_of(target_str@)->0,
            )],
    {
        match PackageTarget::parse(target_str) {
            Ok(t) => match self.position(t) {
                Some(i) => Some(&self.graphs[i]),
                None => None,
            },
            Err(_) => None,
        }
    }

    /// The graph for the platform that `target_str` names, to be changed in place. There is
    /// none where the string names no supported platform, or one that the router was not
    /// made for; the router is then as it was.
    pub fn graph_mut(&mut self, target_str: &str) -> (r: Option<&mut DependencyGraph>)
        requires
            old(self).wf(),
        ensures
            r is Some <==> (target_of(target_str@) matches Some(t) && routes(old(self)@, t)),
            r matches Some(g) ==> g.wf() && *g == old(self).graphs()[slot(
                old(self)@,
                target_of(target_str@)->0,
            )] && final(self).graphs() == old(self).graphs().update(
                slot(old(self)@, target_of(target_str@)->0),
                *final(g),
            ),
            r is None ==> *final(self) == *old(self),
    {
        match PackageTarget::parse(target_str) {
            Ok(t) => match self.position(t) {
                Some(i) => Some(&mut self.graphs[i]),
                None => None,
            },
            Err(_) => None,
        }
    }

    /// Ingests a batch of package records, in the order given, and reports the size of
    /// every graph. Each record goes to the graph of its platform. A record for a platform
    /// without a graph, or one that is malformed, is passed over; the others are not held
    /// up by it. The report has one entry for each graph, whether records reached it or not.
    pub fn build(&mut self, packages: &[PackageRecord], use_build_deps: bool) -> (stats: Vec<
        TargetGraphStats,
    >)
        requires
            old(self).wf(),
        ensures
            final(self).wf(),
            final(self)@.len() == old(self)@.len(),
            forall|i: int|
                0 <= i < old(self)@.len() ==> #[trigger] final(self)@[i] == old(self)@[i].offer_all(
                    record_views(packages@),
                    use_build_deps,
                ),
            stats@ == final(self)@.map_values(|g: GraphView| stats_of(g)),
    {
        let ghost start = self@;
        let ghost records = record_views(packages@);
        let mut k: usize = 0;
        assert(records.take(0) =~= Seq::empty());
        while k < packages.len()
            invariant
                k <= packages.len(),
                records == record_views(packages@),
                self.wf(),
                self@.len() == start.len(),
                forall|i: int|
                    0 <= i < start.len() ==> #[trigger] self@[i] == start[i].offer_all(
                        records.take(k as int),
                        use_build_deps,
                    ),
            decreases packages.len() - k,
        {
            let p = &packages[k];
            let ghost before = self@;
            let ghost held = self.graphs();
            proof {
                assert(records.take(k + 1).drop_last() =~= records.take(k as int));
                assert(records.take(k + 1).last() == p@);
            }
            match self.graph_mut(p.target.as_str()) {
                Some(g) => {
                    let ghost was = g@;
                    proof {
                        g.lemma_view_wf();
                    }
                    let _ = g.extend(p, use_build_deps);
                    proof {
                        lemma_offer(was, p@, use_build_deps);
                    }
                },
                None => {},
            }
            proof {
                assert(self.graphs().len() == held.len());
                assert forall|i: int| 0 <= i < start.len() implies #[trigger] self@[i]
                    == before[i].offer(p@, use_build_deps) by {
                    assert(before[i] == held[i]@);
                    if self.graphs()[i] == held[i] {
                        // not the graph that took the record
                        if p@.verdict_for(before[i].target) is Ok {
                            let t = before[i].target;
                            assert(target_of(p@.target) == Some(t));
                            assert(routes(before, t));
                            let j = slot(before, t);
                            if j < i {
                                assert(before[j].target != before[i].target);
                            }
                            if i < j {
                                assert(before[i].target != before[j].target);
                            }
                        }
                    }
                }
                assert forall|i: int| 0 <= i < self.graphs().len() implies (
                #[trigger] self.graphs()[i]).wf() by {
                    assert(held[i].wf());
                }
                assert forall|i: int, j: int| 0 <= i < j < self@.len() implies (
                #[trigger] self@[i]).target != (#[trigger] self@[j]).target by {
                    held[i].lemma_view_wf();
                    held[j].lemma_view_wf();
                    lemma_offer(before[i], p@, use_build_deps);
                    lemma_offer(before[j], p@, use_build_deps);
                    assert(before[i].target != before[j].target);
                }
            }
            k += 1;
        }
        assert(records.take(k as int) =~= records);
        let mut stats: Vec<TargetGraphStats> = Vec::new();
        let mut i: usize = 0;
        while i < self.graphs.len()
            invariant
                i <= self.graphs.len(),
                stats@ =~= self@.take(i as int).map_values(|g: GraphView| stats_of(g)),
            decreases self.graphs.len() - i,
        {
            let graph = &self.graphs[i];
            let s = graph.stats();
            let ghost sofar = stats@;
            stats.push(
                TargetGraphStats {
                    target: graph.target(),
                    node_count: s.node_count,
                    edge_count: s.edge_count,
                },
            );
            proof {
                let goal = self@.take(i + 1).map_values(|g: GraphView| stats_of(g));
                assert(stats@.len() == goal.len());
                assert forall|m: int| 0 <= m < goal.len() implies stats@[m] == goal[m] by {
                    if m < i {
                        assert(stats@[m] == sofar[m]);
                    } else {
                        assert(self@[i as int] == graph@);
                    }
                }
            }
            i += 1;
        }
        assert(self@.take(i as int) =~= self@);
        stats
    }
}

} // verus!
