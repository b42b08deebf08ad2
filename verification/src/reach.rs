//! Walks and reachability in a directed relation over integer-numbered nodes,
//! and a depth-first search that decides reachability on adjacency lists.

use vstd::prelude::*;

verus! {

/// `p` is a non-empty sequence of nodes in which each node is related to the next.
pub open spec fn is_walk(rel: Set<(int, int)>, p: Seq<int>) -> bool {
    &&& p.len() > 0
    &&& forall|i: int| 0 <= i < p.len() - 1 ==> rel.contains((#[trigger] p[i], p[i + 1]))
}

/// Some walk leads from `a` to `b`. Every node reaches itself, by the walk of one node.
#[verifier::opaque]
pub open spec fn reaches(rel: Set<(int, int)>, a: int, b: int) -> bool {
    exists|p: Seq<int>| is_walk(rel, p) && p[0] == a && p.last() == b
}

/// No related pair lies on a directed cycle: the second node of a pair never leads back
/// to the first. A self-loop is a cycle of length one.
pub open spec fn acyclic(rel: Set<(int, int)>) -> bool {
    forall|a: int, b: int| #[trigger] rel.contains((a, b)) ==> !reaches(rel, b, a)
}

/// The relation with every pair turned round.
pub open spec fn transpose(rel: Set<(int, int)>) -> Set<(int, int)> {
    Set::new(|e: (int, int)| rel.contains((e.1, e.0)))
}

pub proof fn lemma_reaches_self(rel: Set<(int, int)>, a: int)
    ensures
        reaches(rel, a, a),
{
    reveal(reaches);
    let p = seq![a];
    assert(is_walk(rel, p) && p[0] == a && p.last() == a);
}

pub proof fn lemma_reaches_step(rel: Set<(int, int)>, a: int, b: int, c: int)
    requires
        reaches(rel, a, b),
        rel.contains((b, c)),
    ensures
        reaches(rel, a, c),
{
    reveal(reaches);
    let p = choose|p: Seq<int>| is_walk(rel, p) && p[0] == a && p.last() == b;
    let q = p.push(c);
    assert forall|i: int| 0 <= i < q.len() - 1 implies rel.contains((#[trigger] q[i], q[i + 1])) by {
        if i < p.len() - 1 {
            assert(rel.contains((p[i], p[i + 1])));
        }
    }
    assert(is_walk(rel, q) && q[0] == a && q.last() == c);
}

/// A set of nodes that holds the first node of a walk and is closed under the relation
/// holds every node of the walk.
pub proof fn lemma_walk_stays_inside(
    rel: Set<(int, int)>,
    inside: spec_fn(int) -> bool,
    p: Seq<int>,
    k: int,
)
    requires
        is_walk(rel, p),
        inside(p[0]),
        forall|u: int, v: int| inside(u) && #[trigger] rel.contains((u, v)) ==> inside(v),
        0 <= k < p.len(),
    ensures
        inside(p[k]),
    decreases k,
{
    if k > 0 {
        lemma_walk_stays_inside(rel, inside, p, k - 1);
        assert(rel.contains((p[k - 1], p[k - 1 + 1])));
    }
}

/// A set of nodes that holds `a` and is closed under the relation holds all that `a` reaches.
pub proof fn lemma_closed_holds_reachable(
    rel: Set<(int, int)>,
    inside: spec_fn(int) -> bool,
    a: int,
    b: int,
)
    requires
        inside(a),
        forall|u: int, v: int| inside(u) && #[trigger] rel.contains((u, v)) ==> inside(v),
        reaches(rel, a, b),
    ensures
        inside(b),
{
    reveal(reaches);
    let p = choose|p: Seq<int>| is_walk(rel, p) && p[0] == a && p.last() == b;
    lemma_walk_stays_inside(rel, inside, p, p.len() - 1);
}

pub proof fn lemma_reaches_trans(rel: Set<(int, int)>, a: int, b: int, c: int)
    requires
        reaches(rel, a, b),
        reaches(rel, b, c),
    ensures
        reaches(rel, a, c),
{
    let inside = |y: int| reaches(rel, a, y);
    assert forall|u: int, v: int| inside(u) && #[trigger] rel.contains((u, v)) implies inside(v) by {
        lemma_reaches_step(rel, a, u, v);
    }
    lemma_closed_holds_reachable(rel, inside, b, c);
}

pub proof fn lemma_reaches_by_edge(rel: Set<(int, int)>, a: int, b: int)
    requires
        rel.contains((a, b)),
    ensures
        reaches(rel, a, b),
{
    lemma_reaches_self(rel, a);
    lemma_reaches_step(rel, a, a, b);
}

/// A larger relation reaches at least as much.
pub proof fn lemma_reaches_monotone(small: Set<(int, int)>, large: Set<(int, int)>, a: int, b: int)
    requires
        small.subset_of(large),
        reaches(small, a, b),
    ensures
        reaches(large, a, b),
{
    reveal(reaches);
    let p = choose|p: Seq<int>| is_walk(small, p) && p[0] == a && p.last() == b;
    assert forall|i: int| 0 <= i < p.len() - 1 implies large.contains((#[trigger] p[i], p[i + 1])) by {
        assert(small.contains((p[i], p[i + 1])));
    }
    assert(is_walk(large, p));
}

/// What the relation reaches once the pair `(a, b)` is added: either it was reached
/// before, or the walk crosses the new pair.
pub proof fn lemma_reaches_after_insert(rel: Set<(int, int)>, a: int, b: int, x: int, y: int)
    requires
        reaches(rel.insert((a, b)), x, y),
    ensures
        reaches(rel, x, y) || (reaches(rel, x, a) && reaches(rel, b, y)),
{
    let grown = rel.insert((a, b));
    let inside = |z: int| reaches(rel, x, z) || (reaches(rel, x, a) && reaches(rel, b, z));
    lemma_reaches_self(rel, x);
    assert forall|u: int, v: int| inside(u) && #[trigger] grown.contains((u, v)) implies inside(v) by {
        if rel.contains((u, v)) {
            if reaches(rel, x, u) {
                lemma_reaches_step(rel, x, u, v);
            } else {
                lemma_reaches_step(rel, b, u, v);
            }
        } else {
            assert(u == a && v == b);
            lemma_reaches_self(rel, b);
            if !reaches(rel, x, u) {
                assert(reaches(rel, x, a));
            }
        }
    }
    lemma_closed_holds_reachable(grown, inside, x, y);
}

/// Adding a pair whose second node does not lead back to its first keeps the relation acyclic.
pub proof fn lemma_insert_keeps_acyclic(rel: Set<(int, int)>, a: int, b: int)
    requires
        acyclic(rel),
        !reaches(rel, b, a),
    ensures
        acyclic(rel.insert((a, b))),
{
    let grown = rel.insert((a, b));
    assert forall|u: int, v: int| #[trigger] grown.contains((u, v)) implies !reaches(grown, v, u) by {
        if reaches(grown, v, u) {
            lemma_reaches_after_insert(rel, a, b, v, u);
            if rel.contains((u, v)) {
                if !reaches(rel, v, u) {
                    // b reaches u, u steps to v, v reaches a
                    lemma_reaches_step(rel, b, u, v);
                    lemma_reaches_trans(rel, b, v, a);
                }
            } else {
                assert(u == a && v == b);
            }
        }
    }
}

/// Adding a pair whose second node leads back to its first closes a cycle.
pub proof fn lemma_insert_closes_cycle(rel: Set<(int, int)>, a: int, b: int)
    requires
        reaches(rel, b, a),
    ensures
        !acyclic(rel.insert((a, b))),
{
    let grown = rel.insert((a, b));
    lemma_reaches_monotone(rel, grown, b, a);
    assert(grown.contains((a, b)));
}

/// A node that is related to nothing reaches only itself.
pub proof fn lemma_sink_reaches_only_itself(rel: Set<(int, int)>, a: int, b: int)
    requires
        forall|v: int| !rel.contains((a, v)),
        reaches(rel, a, b),
    ensures
        a == b,
{
    let inside = |y: int| y == a;
    lemma_closed_holds_reachable(rel, inside, a, b);
}

/// Reaching in the transposed relation is being reached in the relation itself.
pub proof fn lemma_transpose_reaches(rel: Set<(int, int)>, a: int, b: int)
    ensures
        reaches(transpose(rel), a, b) <==> reaches(rel, b, a),
{
    if reaches(transpose(rel), a, b) {
        lemma_transpose_reaches_one_way(rel, transpose(rel), a, b);
    }
    if reaches(rel, b, a) {
        lemma_transpose_reaches_one_way(transpose(rel), rel, b, a);
    }
}

proof fn lemma_transpose_reaches_one_way(rel: Set<(int, int)>, turned: Set<(int, int)>, a: int, b: int)
    requires
        forall|u: int, v: int| turned.contains((u, v)) <==> rel.contains((v, u)),
        reaches(turned, a, b),
    ensures
        reaches(rel, b, a),
{
    let inside = |y: int| reaches(rel, y, a);
    lemma_reaches_self(rel, a);
    assert forall|u: int, v: int| inside(u) && #[trigger] turned.contains((u, v)) implies inside(v) by {
        assert(rel.contains((v, u)));
        lemma_reaches_by_edge(rel, v, u);
        lemma_reaches_trans(rel, v, u, a);
    }
    lemma_closed_holds_reachable(turned, inside, a, b);
}

/// Every node of a walk reaches every later node of it.
pub proof fn lemma_walk_reaches(rel: Set<(int, int)>, p: Seq<int>, i: int, j: int)
    requires
        is_walk(rel, p),
        0 <= i <= j < p.len(),
    ensures
        reaches(rel, p[i], p[j]),
{
    reveal(reaches);
    let q = p.subrange(i, j + 1);
    assert forall|k: int| 0 <= k < q.len() - 1 implies rel.contains((#[trigger] q[k], q[k + 1])) by {
        assert(rel.contains((p[i + k], p[i + k + 1])));
    }
    assert(is_walk(rel, q) && q[0] == p[i] && q.last() == p[j]);
}

/// More than `n` numbers below `n` hold some number twice.
pub proof fn lemma_some_number_twice(p: Seq<int>, n: int) -> (r: (int, int))
    requires
        0 <= n < p.len(),
        forall|i: int| 0 <= i < p.len() ==> 0 <= #[trigger] p[i] < n,
    ensures
        0 <= r.0 < r.1 < p.len(),
        p[r.0] == p[r.1],
{
    if p.no_duplicates() {
        p.unique_seq_to_set();
        vstd::set_lib::lemma_int_range(0, n);
        assert(p.to_set().subset_of(vstd::set_lib::set_int_range(0, n))) by {
            assert forall|x: int| p.to_set().contains(x) implies vstd::set_lib::set_int_range(
                0,
                n,
            ).contains(x) by {
                let k = choose|k: int| 0 <= k < p.len() && p[k] == x;
                assert(0 <= p[k] < n);
            }
        }
        vstd::set_lib::lemma_len_subset(p.to_set(), vstd::set_lib::set_int_range(0, n));
        assert(false);
    }
    let (i, j) = choose|i: int, j: int|
        0 <= i < p.len() && 0 <= j < p.len() && i != j && p[i] == p[j];
    if i < j {
        (i, j)
    } else {
        (j, i)
    }
}

/// Where every node of a set is related to some node of the set, walks of any length stay
/// in the set.
proof fn lemma_walk_without_end(
    rel: Set<(int, int)>,
    inside: spec_fn(int) -> bool,
    start: int,
    k: nat,
) -> (p: Seq<int>)
    requires
        inside(start),
        forall|u: int| #[trigger] inside(u) ==> exists|v: int| rel.contains((u, v)) && inside(v),
    ensures
        is_walk(rel, p),
        p.len() == k + 1,
        p[0] == start,
        forall|i: int| 0 <= i < p.len() ==> inside(#[trigger] p[i]),
    decreases k,
{
    if k == 0 {
        seq![start]
    } else {
        let q = lemma_walk_without_end(rel, inside, start, (k - 1) as nat);
        let u = q.last();
        assert(inside(u));
        let v = choose|v: int| rel.contains((u, v)) && inside(v);
        let p = q.push(v);
        assert forall|i: int| 0 <= i < p.len() - 1 implies rel.contains((#[trigger] p[i], p[i + 1])) by {
            if i < q.len() - 1 {
                assert(rel.contains((q[i], q[i + 1])));
            }
        }
        assert forall|i: int| 0 <= i < p.len() implies inside(#[trigger] p[i]) by {
            if i < q.len() {
                assert(inside(q[i]));
            }
        }
        p
    }
}

/// Node `u` is in the set and related to no node of the set.
pub open spec fn is_last_of(rel: Set<(int, int)>, inside: spec_fn(int) -> bool, u: int) -> bool {
    inside(u) && forall|v: int| #[trigger] rel.contains((u, v)) ==> !inside(v)
}

/// In an acyclic relation, every non-empty set of the nodes below `n` has a node that is
/// related to no node of the set.
pub proof fn lemma_acyclic_has_last(
    rel: Set<(int, int)>,
    n: int,
    inside: spec_fn(int) -> bool,
    start: int,
) -> (u: int)
    requires
        acyclic(rel),
        inside(start),
        forall|x: int| #[trigger] inside(x) ==> 0 <= x < n,
    ensures
        is_last_of(rel, inside, u),
{
    if exists|u: int| is_last_of(rel, inside, u) {
        choose|u: int| is_last_of(rel, inside, u)
    } else {
        assert forall|u: int| #[trigger] inside(u) implies exists|v: int|
            rel.contains((u, v)) && inside(v) by {
            assert(!is_last_of(rel, inside, u));
        }
        let p = lemma_walk_without_end(rel, inside, start, n as nat);
        assert forall|i: int| 0 <= i < p.len() implies 0 <= #[trigger] p[i] < n by {
            assert(inside(p[i]));
        }
        let (i, j) = lemma_some_number_twice(p, n);
        assert(rel.contains((p[i], p[i + 1])));
        lemma_walk_reaches(rel, p, i + 1, j);
        assert(false);
        start
    }
}

} // verus!
