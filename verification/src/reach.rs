//! Walks and reachability in a directed graph on integers given by an
//! adjacency predicate, and the closure fact that search proofs rest on: a
//! set that holds the start and is closed under steps holds everything
//! reachable.

use vstd::prelude::*;

verus! {

/// `p` is a non-empty walk: each element steps to the next.
pub open spec fn is_walk(adj: spec_fn(int, int) -> bool, p: Seq<int>) -> bool {
    &&& p.len() > 0
    &&& forall|i: int| 0 <= i < p.len() - 1 ==> #[trigger] adj(p[i], p[i + 1])
}

/// Some walk leads from `a` to `b`.
pub open spec fn reaches(adj: spec_fn(int, int) -> bool, a: int, b: int) -> bool {
    exists|p: Seq<int>| #[trigger] is_walk(adj, p) && p[0] == a && p.last() == b
}

/// `s` is closed under steps.
pub open spec fn closed_under(adj: spec_fn(int, int) -> bool, s: Set<int>) -> bool {
    forall|x: int, y: int| s.contains(x) && #[trigger] adj(x, y) ==> s.contains(y)
}

pub proof fn lemma_reaches_refl(adj: spec_fn(int, int) -> bool, a: int)
    ensures
        reaches(adj, a, a),
{
    let p = seq![a];
    assert(is_walk(adj, p));
}

pub proof fn lemma_reaches_step(adj: spec_fn(int, int) -> bool, a: int, b: int, c: int)
    requires
        reaches(adj, a, b),
        adj(b, c),
    ensures
        reaches(adj, a, c),
{
    let p = choose|p: Seq<int>| #[trigger] is_walk(adj, p) && p[0] == a && p.last() == b;
    let q = p.push(c);
    assert forall|i: int| 0 <= i < q.len() - 1 implies #[trigger] adj(q[i], q[i + 1]) by {
        if i < p.len() - 1 {
            assert(q[i] == p[i] && q[i + 1] == p[i + 1]);
        }
    }
    assert(is_walk(adj, q));
}

/// Every walk from a member of a step-closed set stays in it.
pub proof fn lemma_walk_closed(adj: spec_fn(int, int) -> bool, s: Set<int>, p: Seq<int>)
    requires
        is_walk(adj, p),
        s.contains(p[0]),
        closed_under(adj, s),
    ensures
        s.contains(p.last()),
    decreases p.len(),
{
    if p.len() > 1 {
        let q = p.drop_last();
        assert forall|i: int| 0 <= i < q.len() - 1 implies #[trigger] adj(q[i], q[i + 1]) by {
            assert(adj(p[i], p[i + 1]));
        }
        lemma_walk_closed(adj, s, q);
        let i = p.len() - 2;
        assert(adj(p[i], p[i + 1]));
        assert(q.last() == p[i]);
    }
}

/// A step-closed set holding `a` holds everything `a` reaches.
pub proof fn lemma_closed_reach(adj: spec_fn(int, int) -> bool, s: Set<int>, a: int, b: int)
    requires
        s.contains(a),
        closed_under(adj, s),
        reaches(adj, a, b),
    ensures
        s.contains(b),
{
    let p = choose|p: Seq<int>| #[trigger] is_walk(adj, p) && p[0] == a && p.last() == b;
    lemma_walk_closed(adj, s, p);
}

/// The indices marked in `seen`.
pub open spec fn marked(seen: Seq<bool>) -> Set<usize> {
    Set::new(|i: usize| i < seen.len() && seen[i as int])
}

pub proof fn lemma_marked_bound(seen: Seq<bool>)
    requires
        seen.len() <= usize::MAX + 1,
    ensures
        marked(seen).finite(),
        marked(seen).len() <= seen.len(),
{
    let all = Seq::new(seen.len(), |i: int| i as usize);
    all.lemma_cardinality_of_set();
    assert forall|i: usize| marked(seen).contains(i) implies all.to_set().contains(i) by {
        assert(all[i as int] == i);
    }
    vstd::set_lib::lemma_len_subset(marked(seen), all.to_set());
}

/// The state of a search from `start` over `adj` within `0..seen.len()`:
/// every marked index is reached from `start`, the queue holds marked
/// indices once each, every marked index that is neither queued nor
/// `pending` has all its steps marked, and `popped` plus the queue length
/// is the number of marked indices.
pub open spec fn search_ok(
    adj: spec_fn(int, int) -> bool,
    start: int,
    seen: Seq<bool>,
    q: Seq<usize>,
    popped: int,
    pending: int,
) -> bool {
    &&& 0 <= start < seen.len() && seen[start]
    &&& seen.len() <= usize::MAX + 1
    &&& forall|x: int| 0 <= x < seen.len() && seen[x] ==> #[trigger] reaches(adj, start, x)
    &&& forall|j: int| 0 <= j < q.len() ==> (#[trigger] q[j]) < seen.len() && seen[q[j] as int]
    &&& q.no_duplicates()
    &&& forall|x: int, y: int|
        0 <= x < seen.len() && seen[x] && x != pending && !q.contains(x as usize) && #[trigger] adj(x, y) ==> 0
            <= y < seen.len() && seen[y]
    &&& popped + q.len() == marked(seen).len()
}

/// The state with only `start` marked and queued.
pub proof fn lemma_search_start(adj: spec_fn(int, int) -> bool, start: int, seen: Seq<bool>)
    requires
        0 <= start < seen.len() <= usize::MAX + 1,
        forall|i: int| 0 <= i < seen.len() ==> seen[i] == (i == start),
    ensures
        search_ok(adj, start, seen, seq![start as usize], 0, -1),
{
    lemma_reaches_refl(adj, start);
    assert(marked(seen) =~= set![start as usize]);
    let q = seq![start as usize];
    assert(q[0] == start as usize);
    assert(q.contains(start as usize));
}

/// Taking queue entry `k` off makes it the pending index.
pub proof fn lemma_search_pop(adj: spec_fn(int, int) -> bool, start: int, seen: Seq<bool>, q: Seq<usize>, popped: int, k: int)
    requires
        search_ok(adj, start, seen, q, popped, -1),
        0 <= k < q.len(),
    ensures
        search_ok(adj, start, seen, q.remove(k), popped + 1, q[k] as int),
{
    let nq = q.remove(k);
    assert forall|x: int, y: int|
        0 <= x < seen.len() && seen[x] && x != q[k] as int && !nq.contains(x as usize) && #[trigger] adj(x, y) implies 0
            <= y < seen.len() && seen[y] by {
        if q.contains(x as usize) {
            let j = choose|j: int| 0 <= j < q.len() && q[j] == x as usize;
            if j < k {
                assert(nq[j] == x as usize);
            } else if j > k {
                assert(nq[j - 1] == x as usize);
            }
        }
    }
    assert forall|j: int| 0 <= j < nq.len() implies (#[trigger] nq[j]) < seen.len() && seen[nq[j] as int] by {
        if j < k {
            assert(nq[j] == q[j]);
        } else {
            assert(nq[j] == q[j + 1]);
        }
    }
    assert forall|a: int, b: int| 0 <= a < nq.len() && 0 <= b < nq.len() && a != b implies nq[a] != nq[b] by {
        let a2 = if a < k { a } else { a + 1 };
        let b2 = if b < k { b } else { b + 1 };
        assert(nq[a] == q[a2] && nq[b] == q[b2]);
    }
}

/// Marking an unmarked step `y` of the pending index and queueing it.
pub proof fn lemma_search_mark(
    adj: spec_fn(int, int) -> bool,
    start: int,
    seen: Seq<bool>,
    q: Seq<usize>,
    popped: int,
    pending: int,
    y: int,
)
    requires
        search_ok(adj, start, seen, q, popped, pending),
        0 <= pending < seen.len() && seen[pending],
        adj(pending, y),
        0 <= y < seen.len(),
        !seen[y],
    ensures
        search_ok(adj, start, seen.update(y, true), q.push(y as usize), popped, pending),
{
    let ns = seen.update(y, true);
    let nq = q.push(y as usize);
    lemma_reaches_step(adj, start, pending, y);
    assert forall|x: int| 0 <= x < ns.len() && ns[x] implies #[trigger] reaches(adj, start, x) by {
        if x != y {
            assert(seen[x]);
        }
    }
    assert(marked(ns) =~= marked(seen).insert(y as usize));
    lemma_marked_bound(seen);
    assert(!marked(seen).contains(y as usize));
    assert forall|j: int| 0 <= j < nq.len() implies (#[trigger] nq[j]) < ns.len() && ns[nq[j] as int] by {
        if j < q.len() {
            assert(nq[j] == q[j]);
        }
    }
    assert forall|a: int, b: int| 0 <= a < nq.len() && 0 <= b < nq.len() && a != b implies nq[a] != nq[b] by {
        if a < q.len() && b < q.len() {
            assert(nq[a] == q[a] && nq[b] == q[b]);
        } else if a < q.len() {
            assert(nq[a] == q[a]);
            assert(seen[q[a] as int]);
        } else if b < q.len() {
            assert(nq[b] == q[b]);
            assert(seen[q[b] as int]);
        }
    }
    assert forall|x: int, z: int|
        0 <= x < ns.len() && ns[x] && x != pending && !nq.contains(x as usize) && #[trigger] adj(x, z) implies 0
            <= z < ns.len() && ns[z] by {
        assert(x != y) by {
            if x == y {
                assert(nq[q.len() as int] == y as usize);
            }
        }
        if q.contains(x as usize) {
            let j = choose|j: int| 0 <= j < q.len() && q[j] == x as usize;
            assert(nq[j] == x as usize);
        }
    }
}

/// Once every step of the pending index is marked it is done with.
pub proof fn lemma_search_settle(
    adj: spec_fn(int, int) -> bool,
    start: int,
    seen: Seq<bool>,
    q: Seq<usize>,
    popped: int,
    pending: int,
)
    requires
        search_ok(adj, start, seen, q, popped, pending),
        forall|y: int| #[trigger] adj(pending, y) ==> 0 <= y < seen.len() && seen[y],
    ensures
        search_ok(adj, start, seen, q, popped, -1),
{
}

/// A finished search has marked exactly what `start` reaches, and popped
/// each of it once.
pub proof fn lemma_search_done(adj: spec_fn(int, int) -> bool, start: int, seen: Seq<bool>, popped: int)
    requires
        search_ok(adj, start, seen, Seq::empty(), popped, -1),
    ensures
        forall|y: int| #[trigger] reaches(adj, start, y) <==> 0 <= y < seen.len() && seen[y],
        popped == marked(seen).len(),
        marked(seen).finite(),
{
    lemma_marked_bound(seen);
    let s = Set::new(|i: int| 0 <= i < seen.len() && seen[i]);
    let q = Seq::<usize>::empty();
    assert forall|x: int, y: int| s.contains(x) && #[trigger] adj(x, y) implies s.contains(y) by {
        assert(!q.contains(x as usize));
    }
    assert(closed_under(adj, s));
    assert(s.contains(start));
    assert forall|y: int| #[trigger] reaches(adj, start, y) <==> 0 <= y < seen.len() && seen[y] by {
        if reaches(adj, start, y) {
            lemma_closed_reach(adj, s, start, y);
            assert(s.contains(y));
        }
    }
}

} // verus!
