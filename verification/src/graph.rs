//! Reachability over finite graphs given as edge lists.

use vstd::prelude::*;

verus! {

/// Node `t` is reached from `s` in exactly `n` steps over `edges`, never entering `avoid`.
pub open spec fn reach_in(edges: Seq<(usize, usize)>, avoid: int, s: int, t: int, n: nat) -> bool
    decreases n,
{
    t != avoid && if n == 0 {
        s == t
    } else {
        exists|k: int|
            0 <= k < edges.len() && (#[trigger] edges[k]).1 == t && reach_in(
                edges,
                avoid,
                s,
                edges[k].0 as int,
                (n - 1) as nat,
            )
    }
}

/// Node `t` is reached from `s` over `edges` by some walk that never visits `avoid`.
pub open spec fn reaches(edges: Seq<(usize, usize)>, avoid: int, s: int, t: int) -> bool {
    exists|n: nat| reach_in(edges, avoid, s, t, n)
}

/// Number of `false` entries.
pub open spec fn unseen(seen: Seq<bool>) -> nat
    decreases seen.len(),
{
    if seen.len() == 0 {
        0
    } else {
        unseen(seen.drop_last()) + if seen.last() { 0nat } else { 1nat }
    }
}

pub(crate) proof fn lemma_unseen_mark(seen: Seq<bool>, i: int)
    requires
        0 <= i < seen.len(),
        !seen[i],
    ensures
        unseen(seen.update(i, true)) + 1 == unseen(seen),
    decreases seen.len(),
{
    if i == seen.len() - 1 {
        assert(seen.update(i, true).drop_last() =~= seen.drop_last());
    } else {
        lemma_unseen_mark(seen.drop_last(), i);
        assert(seen.update(i, true).drop_last() =~= seen.drop_last().update(i, true));
    }
}

/// A set that contains the start and is closed under the edges contains everything reached.
proof fn lemma_closed_covers(edges: Seq<(usize, usize)>, avoid: int, s: int, t: int, n: nat, seen: Seq<bool>)
    requires
        reach_in(edges, avoid, s, t, n),
        0 <= s < seen.len(),
        s != avoid ==> seen[s],
        forall|k: int|
            0 <= k < edges.len() && (#[trigger] edges[k]).1 < seen.len() && edges[k].1 != avoid && edges[k].0
                < seen.len() && seen[edges[k].0 as int] ==> seen[edges[k].1 as int],
        forall|k: int| 0 <= k < edges.len() ==> (#[trigger] edges[k]).0 < seen.len() && edges[k].1 < seen.len(),
    ensures
        0 <= t < seen.len(),
        seen[t],
    decreases n,
{
    if n > 0 {
        let k = choose|k: int|
            0 <= k < edges.len() && (#[trigger] edges[k]).1 == t && reach_in(
                edges,
                avoid,
                s,
                edges[k].0 as int,
                (n - 1) as nat,
            );
        lemma_closed_covers(edges, avoid, s, edges[k].0 as int, (n - 1) as nat, seen);
    }
}

/// Marks every node that is reached from `start` without visiting `avoid`.
///
/// An `avoid` outside the graph blocks nothing.
pub fn reachable(nodes: usize, edges: &Vec<(usize, usize)>, start: usize, avoid: usize) -> (seen: Vec<bool>)
    requires
        start < nodes,
        forall|k: int| 0 <= k < edges@.len() ==> (#[trigger] edges@[k]).0 < nodes && edges@[k].1 < nodes,
    ensures
        seen@.len() == nodes,
        forall|t: int| 0 <= t < nodes ==> (#[trigger] seen@[t] <==> reaches(edges@, avoid as int, start as int, t)),
{
    let mut seen: Vec<bool> = Vec::new();
    while seen.len() < nodes
        invariant
            seen@.len() <= nodes,
            forall|t: int| 0 <= t < seen@.len() ==> !#[trigger] seen@[t],
        decreases nodes - seen@.len(),
    {
        seen.push(false);
    }
    if start != avoid {
        seen.set(start, true);
        assert(reach_in(edges@, avoid as int, start as int, start as int, 0));
    }
    let mut changed = true;
    while changed
        invariant
            seen@.len() == nodes,
            start < nodes,
            start != avoid ==> seen@[start as int],
            forall|k: int| 0 <= k < edges@.len() ==> (#[trigger] edges@[k]).0 < nodes && edges@[k].1 < nodes,
            forall|t: int|
                0 <= t < nodes && #[trigger] seen@[t] ==> reaches(edges@, avoid as int, start as int, t),
            !changed ==> forall|k: int|
                0 <= k < edges@.len() && (#[trigger] edges@[k]).1 != avoid && seen@[edges@[k].0 as int]
                    ==> seen@[edges@[k].1 as int],
        decreases unseen(seen@), changed as int,
    {
        changed = false;
        let ghost before = seen@;
        let mut i: usize = 0;
        while i < edges.len()
            invariant
                seen@.len() == nodes,
                start < nodes,
                0 <= i <= edges@.len(),
                start != avoid ==> seen@[start as int],
                forall|k: int| 0 <= k < edges@.len() ==> (#[trigger] edges@[k]).0 < nodes && edges@[k].1 < nodes,
                forall|t: int|
                    0 <= t < nodes && #[trigger] seen@[t] ==> reaches(edges@, avoid as int, start as int, t),
                !changed ==> seen@ == before,
                changed ==> unseen(seen@) < unseen(before),
                !changed ==> forall|k: int|
                    0 <= k < i && (#[trigger] edges@[k]).1 != avoid && seen@[edges@[k].0 as int]
                        ==> seen@[edges@[k].1 as int],
            decreases edges@.len() - i,
        {
            let a: usize = edges[i].0;
            let b: usize = edges[i].1;
            if seen[a] && b != avoid && !seen[b] {
                proof {
                    let n = choose|n: nat| reach_in(edges@, avoid as int, start as int, a as int, n);
                    assert(edges@[i as int].1 == b);
                    assert(reach_in(edges@, avoid as int, start as int, b as int, n + 1));
                    lemma_unseen_mark(seen@, b as int);
                }
                seen.set(b, true);
                changed = true;
            }
            i += 1;
        }
    }
    proof {
        assert forall|t: int| 0 <= t < nodes && reaches(edges@, avoid as int, start as int, t) implies seen@[t] by {
            let n = choose|n: nat| reach_in(edges@, avoid as int, start as int, t, n);
            lemma_closed_covers(edges@, avoid as int, start as int, t, n, seen@);
        }
    }
    seen
}

/// Reachability composes.
pub proof fn reaches_is_transitive(edges: Seq<(usize, usize)>, avoid: int, a: int, b: int, c: int)
    requires
        reaches(edges, avoid, a, b),
        reaches(edges, avoid, b, c),
    ensures
        reaches(edges, avoid, a, c),
{
    let m = choose|m: nat| reach_in(edges, avoid, b, c, m);
    lemma_extend(edges, avoid, a, b, c, m);
}

proof fn lemma_extend(edges: Seq<(usize, usize)>, avoid: int, a: int, b: int, c: int, m: nat)
    requires
        reaches(edges, avoid, a, b),
        reach_in(edges, avoid, b, c, m),
    ensures
        reaches(edges, avoid, a, c),
    decreases m,
{
    if m > 0 {
        let k = choose|k: int|
            0 <= k < edges.len() && (#[trigger] edges[k]).1 == c && reach_in(
                edges,
                avoid,
                b,
                edges[k].0 as int,
                (m - 1) as nat,
            );
        lemma_extend(edges, avoid, a, b, edges[k].0 as int, (m - 1) as nat);
        let n = choose|n: nat| reach_in(edges, avoid, a, edges[k].0 as int, n);
        assert(reach_in(edges, avoid, a, c, n + 1));
    }
}

} // verus!
