//! Depth-first search over adjacency lists, proved to mark exactly the nodes
//! that the start node reaches.

use vstd::prelude::*;
use crate::reach::{lemma_closed_holds_reachable, lemma_reaches_self, lemma_reaches_step, reaches};

verus! {

/// The relation that adjacency lists stand for: `u` is related to each entry of its list.
pub open spec fn adjacency_relation(adj: Seq<Vec<usize>>) -> Set<(int, int)> {
    Set::new(
        |e: (int, int)|
            0 <= e.0 < adj.len() && exists|k: int|
                0 <= k < adj[e.0].len() && #[trigger] adj[e.0][k] as int == e.1,
    )
}

/// Every entry of every list names a node.
pub open spec fn adjacency_in_range(adj: Seq<Vec<usize>>) -> bool {
    forall|u: int, k: int|
        0 <= u < adj.len() && 0 <= k < adj[u].len() ==> (#[trigger] adj[u][k]) < adj.len()
}

/// One more node with an empty list leaves the relation as it was.
pub proof fn lemma_adjacency_new_row(adj: Seq<Vec<usize>>, row: Vec<usize>)
    requires
        row@.len() == 0,
    ensures
        adjacency_relation(adj.push(row)) =~= adjacency_relation(adj),
        adjacency_in_range(adj) ==> adjacency_in_range(adj.push(row)),
{
    let grown = adj.push(row);
    assert forall|e: (int, int)| adjacency_relation(grown).contains(e) <==> adjacency_relation(
        adj,
    ).contains(e) by {
        if adjacency_relation(grown).contains(e) {
            let k = choose|k: int| 0 <= k < grown[e.0].len() && #[trigger] grown[e.0][k] as int == e.1;
            assert(e.0 < adj.len());
            assert(adj[e.0][k] as int == e.1);
        }
        if adjacency_relation(adj).contains(e) {
            let k = choose|k: int| 0 <= k < adj[e.0].len() && #[trigger] adj[e.0][k] as int == e.1;
            assert(grown[e.0][k] as int == e.1);
        }
    }
    if adjacency_in_range(adj) {
        assert forall|u: int, k: int| 0 <= u < grown.len() && 0 <= k < grown[u].len() implies (
        #[trigger] grown[u][k]) < grown.len() by {
            assert(adj[u][k] < adj.len());
        }
    }
}

/// One more entry in the list of `u` is one more pair in the relation.
pub proof fn lemma_adjacency_new_entry(adj: Seq<Vec<usize>>, grown: Seq<Vec<usize>>, u: int, v: usize)
    requires
        0 <= u < adj.len(),
        grown.len() == adj.len(),
        forall|w: int| 0 <= w < adj.len() && w != u ==> #[trigger] grown[w]@ == adj[w]@,
        grown[u]@ == adj[u]@.push(v),
    ensures
        adjacency_relation(grown) =~= adjacency_relation(adj).insert((u, v as int)),
        adjacency_in_range(adj) && v < adj.len() ==> adjacency_in_range(grown),
{
    assert forall|e: (int, int)|
        adjacency_relation(grown).contains(e) <==> adjacency_relation(adj).insert(
            (u, v as int),
        ).contains(e) by {
        if adjacency_relation(grown).contains(e) {
            let k = choose|k: int|
                0 <= k < grown[e.0].len() && #[trigger] grown[e.0][k] as int == e.1;
            if e.0 == u {
                if k < adj[u].len() {
                    assert(adj[u][k] == grown[u]@[k]);
                }
            } else {
                assert(grown[e.0]@ == adj[e.0]@);
                assert(adj[e.0][k] as int == e.1);
            }
        }
        if adjacency_relation(adj).contains(e) {
            let k = choose|k: int| 0 <= k < adj[e.0].len() && #[trigger] adj[e.0][k] as int == e.1;
            if e.0 == u {
                assert(grown[u]@[k] == adj[u]@[k]);
            } else {
                assert(grown[e.0]@ == adj[e.0]@);
            }
            assert(grown[e.0][k] as int == e.1);
        }
        if e == (u, v as int) {
            assert(grown[u][adj[u].len() as int] as int == e.1);
        }
    }
    if adjacency_in_range(adj) && v < adj.len() {
        assert forall|w: int, k: int| 0 <= w < grown.len() && 0 <= k < grown[w].len() implies (
        #[trigger] grown[w][k]) < grown.len() by {
            if w == u {
                if k < adj[u].len() {
                    assert(grown[u]@[k] == adj[u][k]);
                }
            } else {
                assert(grown[w]@ == adj[w]@);
                assert(grown[w][k] == adj[w][k]);
            }
        }
    }
}

/// How many entries of `s` are `true`.
pub open spec fn count_true(s: Seq<bool>) -> nat
    decreases s.len(),
{
    if s.len() == 0 {
        0
    } else {
        count_true(s.drop_last()) + if s.last() { 1nat } else { 0nat }
    }
}

pub proof fn lemma_count_true_bound(s: Seq<bool>)
    ensures
        count_true(s) <= s.len(),
    decreases s.len(),
{
    if s.len() > 0 {
        lemma_count_true_bound(s.drop_last());
    }
}

pub proof fn lemma_count_true_update(s: Seq<bool>, i: int)
    requires
        0 <= i < s.len(),
        !s[i],
    ensures
        count_true(s.update(i, true)) == count_true(s) + 1,
    decreases s.len(),
{
    let t = s.update(i, true);
    if i == s.len() - 1 {
        assert(t.drop_last() =~= s.drop_last());
    } else {
        lemma_count_true_update(s.drop_last(), i);
        assert(t.drop_last() =~= s.drop_last().update(i, true));
    }
}

/// A sequence with fewer `true` entries than entries has an entry that is `false`.
pub proof fn lemma_count_true_finds_false(s: Seq<bool>) -> (i: int)
    requires
        count_true(s) < s.len(),
    ensures
        0 <= i < s.len(),
        !s[i],
    decreases s.len(),
{
    if !s.last() {
        s.len() - 1
    } else {
        lemma_count_true_finds_false(s.drop_last())
    }
}

/// Marks every node that `start` reaches along the lists of `adj`, `start` itself included.
pub fn reachable_from(adj: &Vec<Vec<usize>>, start: usize) -> (seen: Vec<bool>)
    requires
        start < adj.len(),
        adjacency_in_range(adj@),
    ensures
        seen.len() == adj.len(),
        forall|v: int|
            0 <= v < adj.len() ==> (#[trigger] seen[v] <==> reaches(
                adjacency_relation(adj@),
                start as int,
                v,
            )),
{
    let n: usize = adj.len();
    let ghost rel = adjacency_relation(adj@);
    let mut seen: Vec<bool> = vec![false; n];
    let mut stack: Vec<usize> = Vec::new();
    assert(forall|i: int| 0 <= i < n ==> !(#[trigger] seen@[i]));
    seen[start] = true;
    stack.push(start);
    proof {
        lemma_reaches_self(rel, start as int);
        lemma_count_true_bound(seen@);
        assert(stack@[0] == start);
    }
    while stack.len() > 0
        invariant
            n == adj.len(),
            seen.len() == n,
            adjacency_in_range(adj@),
            rel == adjacency_relation(adj@),
            start < n,
            seen[start as int],
            count_true(seen@) <= n,
            forall|k: int| 0 <= k < stack.len() ==> (#[trigger] stack[k]) < n && seen[stack[k] as int],
            forall|v: int| 0 <= v < n && #[trigger] seen[v] ==> reaches(rel, start as int, v),
            forall|u: int, v: int|
                0 <= u < n && seen[u] && !stack@.contains(u as usize) && #[trigger] rel.contains(
                    (u, v),
                ) ==> 0 <= v < n && seen[v],
        decreases 2 * (n - count_true(seen@)) + stack.len(),
    {
        let ghost before = stack@;
        let ghost budget = 2 * (n - count_true(seen@)) + stack.len();
        let u: usize = stack.pop().unwrap();
        assert forall|x: usize| before.contains(x) && x != u implies stack@.contains(x) by {
            let k = choose|k: int| 0 <= k < before.len() && before[k] == x;
            assert(stack@[k] == x);
        }
        let row = &adj[u];
        let mut j: usize = 0;
        while j < row.len()
            invariant
                n == adj.len(),
                seen.len() == n,
                adjacency_in_range(adj@),
                rel == adjacency_relation(adj@),
                start < n,
                u < n,
                row == &adj[u as int],
                j <= row.len(),
                seen[start as int],
                seen[u as int],
                count_true(seen@) <= n,
                2 * (n - count_true(seen@)) + stack.len() < budget,
                forall|k: int|
                    0 <= k < stack.len() ==> (#[trigger] stack[k]) < n && seen[stack[k] as int],
                forall|v: int| 0 <= v < n && #[trigger] seen[v] ==> reaches(rel, start as int, v),
                forall|k: int| 0 <= k < j ==> seen[(#[trigger] row[k]) as int],
                forall|x: int, v: int|
                    0 <= x < n && x != u && seen[x] && !stack@.contains(x as usize)
                        && #[trigger] rel.contains((x, v)) ==> 0 <= v < n && seen[v],
            decreases row.len() - j,
        {
            let v: usize = row[j];
            assert(adj@[u as int][j as int] == v);
            assert(rel.contains((u as int, v as int)));
            if !seen[v] {
                let ghost old_stack = stack@;
                proof {
                    lemma_count_true_update(seen@, v as int);
                    lemma_reaches_step(rel, start as int, u as int, v as int);
                }
                seen[v] = true;
                stack.push(v);
                assert(stack@[stack.len() - 1] == v);
                assert forall|x: usize| old_stack.contains(x) implies stack@.contains(x) by {
                    let k = choose|k: int| 0 <= k < old_stack.len() && old_stack[k] == x;
                    assert(stack@[k] == x);
                }
                proof {
                    lemma_count_true_bound(seen@);
                }
            }
            j += 1;
        }
        assert forall|v: int| #[trigger] rel.contains((u as int, v)) implies 0 <= v < n && seen[v] by {
            let k = choose|k: int| 0 <= k < adj@[u as int].len() && adj@[u as int][k] as int == v;
            assert(seen[row[k] as int]);
        }
    }
    proof {
        let inside = |v: int| 0 <= v < n && seen@[v];
        assert forall|a: int, b: int| inside(a) && #[trigger] rel.contains((a, b)) implies inside(
            b,
        ) by {
            assert(!stack@.contains(a as usize));
        }
        assert forall|v: int| 0 <= v < n && reaches(rel, start as int, v) implies seen@[v] by {
            lemma_closed_holds_reachable(rel, inside, start as int, v);
        }
    }
    seen
}

} // verus!
