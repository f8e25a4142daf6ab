//! Whether the cells left after placing a region can still be split into
//! regions: every remaining cell must be reached from a symbol cell through
//! remaining cells without crossing a pre-drawn boundary, and every
//! connected part must be large enough.

use vstd::prelude::*;
use std::collections::VecDeque;
use crate::pieces::neighbor_positions;
use crate::rose::cells::{lemma_edge_key_symmetric, CellSet, PreBoundaries};
use crate::rose::region_match::{flat_neighbours, linked, pre_separates, walk_in};

verus! {

/// Cell `x` is reached from a symbol cell of `seeds` lying in `remaining`
/// by a walk through `remaining` (see `walk_in`).
pub open spec fn seed_reached(h: int, w: int, pre: PreBoundaries, remaining: CellSet, seeds: CellSet, x: int) -> bool {
    exists|s: int| remaining.has(s) && seeds.has(s) && #[trigger] linked(h, w, pre, remaining, s, x)
}

/// Every remaining cell is reached from a symbol cell.
pub open spec fn all_reached(h: int, w: int, pre: PreBoundaries, remaining: CellSet, seeds: CellSet) -> bool {
    forall|x: int| #[trigger] remaining.has(x) ==> seed_reached(h, w, pre, remaining, seeds, x)
}

/// Inserting a new member lists exactly one more member.
proof fn lemma_elems_insert(b: CellSet, a: CellSet, c: int, k: int)
    requires
        forall|x: int| #[trigger] b.has(x) == (a.has(x) || x == c),
        !a.has(c),
    ensures
        b.elems_upto(k).len() == a.elems_upto(k).len() + (if 0 <= c < k { 1int } else { 0int }),
    decreases k,
{
    if k > 0 {
        lemma_elems_insert(b, a, c, k - 1);
    }
}

/// At most `k` members lie below `k`.
proof fn lemma_elems_bound(a: CellSet, k: int)
    requires
        k >= 0,
    ensures
        a.elems_upto(k).len() <= k,
    decreases k,
{
    if k > 0 {
        lemma_elems_bound(a, k - 1);
    }
}

/// A walk extended by a step to a neighbour is a walk.
proof fn lemma_walk_extend(h: int, w: int, pre: PreBoundaries, s: CellSet, p: Seq<int>, n: int)
    requires
        walk_in(h, w, pre, s, p),
        s.has(n),
        flat_neighbours(h, w, p.last(), n),
        !pre_separates(pre, w, p.last(), n),
    ensures
        walk_in(h, w, pre, s, p.push(n)),
{
    let q = p.push(n);
    assert forall|i: int| 0 <= i < q.len() implies s.has(#[trigger] q[i]) by {
        if i < p.len() {
            assert(q[i] == p[i]);
        }
    }
    assert forall|i: int| 0 <= i < q.len() - 1 implies flat_neighbours(h, w, #[trigger] q[i], q[i + 1]) && !pre_separates(pre, w, q[i], q[i + 1]) by {
        if i < p.len() - 1 {
            assert(q[i] == p[i] && q[i + 1] == p[i + 1]);
        } else {
            assert(q[i] == p.last() && q[i + 1] == n);
        }
    }
}

/// A walk that starts in a set closed under steps stays in it.
proof fn lemma_walk_closed(h: int, w: int, pre: PreBoundaries, s: CellSet, vis: CellSet, p: Seq<int>)
    requires
        walk_in(h, w, pre, s, p),
        vis.has(p[0]),
        forall|v: int, n: int|
            vis.has(v) && s.has(n) && #[trigger] flat_neighbours(h, w, v, n) && !pre_separates(pre, w, v, n) ==> vis.has(n),
    ensures
        vis.has(p.last()),
    decreases p.len(),
{
    if p.len() > 1 {
        let q = p.drop_last();
        assert(walk_in(h, w, pre, s, q)) by {
            assert forall|i: int| 0 <= i < q.len() implies s.has(#[trigger] q[i]) by {
                assert(q[i] == p[i]);
                assert(s.has(p[i]));
            }
            assert forall|i: int| 0 <= i < q.len() - 1 implies flat_neighbours(h, w, #[trigger] q[i], q[i + 1]) && !pre_separates(pre, w, q[i], q[i + 1]) by {
                assert(q[i] == p[i] && q[i + 1] == p[i + 1]);
                assert(flat_neighbours(h, w, p[i], p[i + 1]));
            }
        }
        lemma_walk_closed(h, w, pre, s, vis, q);
        assert(q.last() == p[p.len() - 2]);
        assert(flat_neighbours(h, w, p[p.len() - 2], p[p.len() - 1]));
        assert(s.has(p[p.len() - 1]));
    }
}

/// How many cells below `k` are linked to `x` through `s`.
pub open spec fn part_count(h: int, w: int, pre: PreBoundaries, s: CellSet, x: int, k: int) -> int
    decreases k,
{
    if k <= 0 {
        0
    } else {
        part_count(h, w, pre, s, x, k - 1) + if linked(h, w, pre, s, x, k - 1) {
            1int
        } else {
            0int
        }
    }
}

/// The number of cells in the connected part of `s` holding `x`: the cells
/// of the grid reached from `x` through `s` without crossing a pre-drawn
/// boundary.
#[verifier::opaque]
pub open spec fn part_size(h: int, w: int, pre: PreBoundaries, s: CellSet, x: int) -> int {
    part_count(h, w, pre, s, x, h * w)
}

/// Every connected part of `s` has at least `min` cells.
#[verifier::opaque]
pub open spec fn parts_at_least(h: int, w: int, pre: PreBoundaries, s: CellSet, min: int) -> bool {
    forall|x: int| #[trigger] s.has(x) ==> part_size(h, w, pre, s, x) >= min
}

/// A pre-drawn boundary separates `a` from `b` exactly when it separates
/// `b` from `a`.
proof fn lemma_separates_symmetric(pre: PreBoundaries, w: int, a: int, b: int)
    ensures
        pre_separates(pre, w, a, b) == pre_separates(pre, w, b, a),
{
    lemma_edge_key_symmetric((a / w) as usize, (a % w) as usize, (b / w) as usize, (b % w) as usize);
}

/// A walk read backwards is a walk.
proof fn lemma_walk_reverse(h: int, w: int, pre: PreBoundaries, s: CellSet, p: Seq<int>) -> (q: Seq<int>)
    requires
        walk_in(h, w, pre, s, p),
    ensures
        walk_in(h, w, pre, s, q),
        q[0] == p.last(),
        q.last() == p[0],
{
    let n = p.len() as int;
    let q = Seq::new(p.len(), |i: int| p[n - 1 - i]);
    assert forall|i: int| 0 <= i < q.len() implies s.has(#[trigger] q[i]) by {
        assert(q[i] == p[n - 1 - i]);
    }
    assert forall|i: int| 0 <= i < q.len() - 1 implies flat_neighbours(h, w, #[trigger] q[i], q[i + 1]) && !pre_separates(pre, w, q[i], q[i + 1]) by {
        let j = n - 2 - i;
        assert(q[i] == p[j + 1] && q[i + 1] == p[j]);
        assert(flat_neighbours(h, w, p[j], p[j + 1]) && !pre_separates(pre, w, p[j], p[j + 1]));
        lemma_separates_symmetric(pre, w, p[j], p[j + 1]);
    }
    q
}

/// Being linked through `s` is symmetric.
proof fn lemma_linked_symmetric(h: int, w: int, pre: PreBoundaries, s: CellSet, a: int, b: int)
    requires
        linked(h, w, pre, s, a, b),
    ensures
        linked(h, w, pre, s, b, a),
{
    let p = choose|p: Seq<int>| #[trigger] walk_in(h, w, pre, s, p) && p[0] == a && p.last() == b;
    let q = lemma_walk_reverse(h, w, pre, s, p);
}

/// Being linked through `s` is transitive.
proof fn lemma_linked_trans(h: int, w: int, pre: PreBoundaries, s: CellSet, a: int, b: int, c: int)
    requires
        linked(h, w, pre, s, a, b),
        linked(h, w, pre, s, b, c),
    ensures
        linked(h, w, pre, s, a, c),
{
    let p = choose|p: Seq<int>| #[trigger] walk_in(h, w, pre, s, p) && p[0] == a && p.last() == b;
    let q = choose|q: Seq<int>| #[trigger] walk_in(h, w, pre, s, q) && q[0] == b && q.last() == c;
    let t = q.subrange(1, q.len() as int);
    let r = p + t;
    let n = p.len() as int;
    assert forall|i: int| 0 <= i < r.len() implies s.has(#[trigger] r[i]) by {
        if i < n {
            assert(r[i] == p[i]);
        } else {
            assert(r[i] == q[i - n + 1]);
        }
    }
    assert forall|i: int| 0 <= i < r.len() - 1 implies flat_neighbours(h, w, #[trigger] r[i], r[i + 1]) && !pre_separates(pre, w, r[i], r[i + 1]) by {
        if i < n - 1 {
            assert(r[i] == p[i] && r[i + 1] == p[i + 1]);
        } else if i == n - 1 {
            assert(r[i] == q[0] && r[i + 1] == q[1]);
            assert(flat_neighbours(h, w, q[0], q[1]));
        } else {
            assert(r[i] == q[i - n + 1] && r[i + 1] == q[i - n + 2]);
            assert(flat_neighbours(h, w, q[i - n + 1], q[i - n + 2]));
        }
    }
    if q.len() == 1 {
        assert(r.last() == p.last());
    } else {
        assert(r.last() == q.last());
    }
    assert(walk_in(h, w, pre, s, r));
}

/// Cells linked to each other have the same connected part, so its size
/// counts the same from either.
proof fn lemma_part_count_same(h: int, w: int, pre: PreBoundaries, s: CellSet, a: int, b: int, k: int)
    requires
        linked(h, w, pre, s, a, b),
    ensures
        part_count(h, w, pre, s, a, k) == part_count(h, w, pre, s, b, k),
    decreases k,
{
    if k > 0 {
        lemma_part_count_same(h, w, pre, s, a, b, k - 1);
        let y = k - 1;
        lemma_linked_symmetric(h, w, pre, s, a, b);
        if linked(h, w, pre, s, a, y) {
            lemma_linked_trans(h, w, pre, s, b, a, y);
        }
        if linked(h, w, pre, s, b, y) {
            lemma_linked_trans(h, w, pre, s, a, b, y);
        }
    }
}

/// Counting past the grid adds nothing: linked cells lie in `s`, whose
/// members are grid cells.
proof fn lemma_part_count_past_grid(h: int, w: int, pre: PreBoundaries, s: CellSet, x: int, k: int)
    requires
        k >= h * w,
        h * w >= 0,
        forall|y: int| #[trigger] s.has(y) ==> y < h * w,
    ensures
        part_count(h, w, pre, s, x, k) == part_size(h, w, pre, s, x),
    decreases k,
{
    reveal(part_size);
    if k > h * w {
        lemma_part_count_past_grid(h, w, pre, s, x, k - 1);
        if linked(h, w, pre, s, x, k - 1) {
            let p = choose|p: Seq<int>| #[trigger] walk_in(h, w, pre, s, p) && p[0] == x && p.last() == k - 1;
            assert(s.has(p[p.len() - 1]));
        }
    }
}

/// A cell of `s` on the grid lies in its own part, so the part has a cell.
proof fn lemma_part_size_positive(h: int, w: int, pre: PreBoundaries, s: CellSet, x: int, k: int)
    requires
        s.has(x),
        0 <= x < k,
    ensures
        part_count(h, w, pre, s, x, k) >= 1,
    decreases k,
{
    if x == k - 1 {
        assert(walk_in(h, w, pre, s, seq![x]));
        assert(linked(h, w, pre, s, x, x));
        lemma_part_count_nonneg(h, w, pre, s, x, k - 1);
    } else {
        lemma_part_size_positive(h, w, pre, s, x, k - 1);
    }
}

proof fn lemma_part_count_nonneg(h: int, w: int, pre: PreBoundaries, s: CellSet, x: int, k: int)
    ensures
        part_count(h, w, pre, s, x, k) >= 0,
    decreases k,
{
    if k > 0 {
        lemma_part_count_nonneg(h, w, pre, s, x, k - 1);
    }
}

/// When the members that `cv` has beyond `base` are exactly the cells linked
/// to `x`, they are as many as those cells.
proof fn lemma_new_members_count(
    h: int,
    w: int,
    pre: PreBoundaries,
    s: CellSet,
    x: int,
    cv: CellSet,
    base: CellSet,
    k: int,
)
    requires
        forall|y: int| #[trigger] base.has(y) ==> cv.has(y),
        forall|y: int| #[trigger] cv.has(y) ==> base.has(y) || linked(h, w, pre, s, x, y),
        forall|y: int| linked(h, w, pre, s, x, y) ==> #[trigger] cv.has(y) && !base.has(y),
    ensures
        cv.elems_upto(k).len() - base.elems_upto(k).len() == part_count(h, w, pre, s, x, k),
    decreases k,
{
    if k > 0 {
        lemma_new_members_count(h, w, pre, s, x, cv, base, k - 1);
        let y = k - 1;
        if cv.has(y) && !base.has(y) {
            assert(linked(h, w, pre, s, x, y));
        }
        if base.has(y) {
            assert(cv.has(y));
        }
        if linked(h, w, pre, s, x, y) {
            assert(cv.has(y) && !base.has(y));
        }
    }
}

/// Every member of a set is among the members it lists.
proof fn lemma_all_listed(s: CellSet, cells: Seq<usize>)
    requires
        s.wf(),
        cells == s.elems(),
    ensures
        forall|x: int| #[trigger] s.has(x) ==> cells.contains(x as usize),
{
    s.lemma_elems(s.nbits() as int);
    assert forall|x: int| #[trigger] s.has(x) implies cells.contains(x as usize) by {
        s.lemma_has_range(x);
    }
}

/// Every member of a set of grid cells lies in a connected part of at least
/// one cell.
proof fn lemma_parts_nonempty(h: int, w: int, pre: PreBoundaries, s: CellSet)
    requires
        forall|x: int| #[trigger] s.has(x) ==> x < h * w,
    ensures
        forall|x: int| #[trigger] s.has(x) ==> part_size(h, w, pre, s, x) >= 1,
{
    reveal(part_size);
    assert forall|x: int| #[trigger] s.has(x) implies part_size(h, w, pre, s, x) >= 1 by {
        s.lemma_has_range(x);
        lemma_part_size_positive(h, w, pre, s, x, h * w);
    }
}

/// Whether the cells of `remaining` can still be split into regions: every
/// remaining cell is reached from a symbol cell of `seed_cells` lying in
/// `remaining`, and, when `min_component_cells` exceeds 1, every connected
/// part of `remaining` has at least that many cells.  With no symbol cell
/// in `remaining` the answer is whether `remaining` is empty.
pub fn can_partition(
    remaining: &CellSet,
    seed_cells: &CellSet,
    pre: &PreBoundaries,
    h: usize,
    w: usize,
    min_component_cells: usize,
) -> (ok: bool)
    requires
        remaining.wf(),
        seed_cells.wf(),
        seed_cells.nbits() == remaining.nbits(),
        remaining.nbits() <= usize::MAX - 63,
        h * w <= remaining.nbits(),
        forall|x: int| #[trigger] remaining.has(x) ==> x < h * w,
    ensures
        ok ==> all_reached(h as int, w as int, *pre, *remaining, *seed_cells),
        all_reached(h as int, w as int, *pre, *remaining, *seed_cells) && min_component_cells <= 1 ==> ok,
        ok == (all_reached(h as int, w as int, *pre, *remaining, *seed_cells) && parts_at_least(
            h as int,
            w as int,
            *pre,
            *remaining,
            min_component_cells as int,
        )),
{
    if !seeds_reach_all(remaining, seed_cells, pre, h, w) {
        return false;
    }
    let cells = remaining.iter();
    proof {
        lemma_all_listed(*remaining, cells@);
        remaining.lemma_elems(remaining.nbits() as int);
        reveal(parts_at_least);
        if min_component_cells <= 1 {
            lemma_parts_nonempty(h as int, w as int, *pre, *remaining);
        }
    }
    parts_large_enough(remaining, &cells, pre, h, w, min_component_cells)
}

/// Whether every cell of `remaining` is reached from a symbol cell of
/// `seed_cells` lying in `remaining` (see `all_reached`).
#[verifier::spinoff_prover]
#[verifier::rlimit(60)]
fn seeds_reach_all(
    remaining: &CellSet,
    seed_cells: &CellSet,
    pre: &PreBoundaries,
    h: usize,
    w: usize,
) -> (covered: bool)
    requires
        remaining.wf(),
        seed_cells.wf(),
        seed_cells.nbits() == remaining.nbits(),
        remaining.nbits() <= usize::MAX - 63,
        h * w <= remaining.nbits(),
        forall|x: int| #[trigger] remaining.has(x) ==> x < h * w,
    ensures
        covered == all_reached(h as int, w as int, *pre, *remaining, *seed_cells),
{
    let nb = remaining.len_bits();
    proof {
        remaining.lemma_wf_bits();
        remaining.lemma_elems(nb as int);
    }
    let cells = remaining.iter();
    let mut active = CellSet::new(nb);
    let mut i: usize = 0;
    while i < cells.len()
        invariant
            nb == remaining.nbits(),
            seed_cells.nbits() == nb,
            active.wf(),
            active.nbits() == nb,
            cells@ == remaining.elems(),
            forall|j: int| 0 <= j < cells@.len() ==> remaining.has(#[trigger] cells@[j] as int),
            forall|x: int| 0 <= x < nb ==> (remaining.has(x) <==> cells@.contains(x as usize)),
            i <= cells@.len(),
            forall|x: int| #[trigger] active.has(x) ==> 0 <= x < nb,
            forall|x: usize| #[trigger] active.has(x as int) <==> remaining.has(x as int) && seed_cells.has(x as int) && cells@.take(i as int).contains(x),
        decreases cells@.len() - i,
    {
        let idx = cells[i];
        proof {
            assert(remaining.has(idx as int));
            remaining.lemma_has_range(idx as int);
        }
        let ghost a0 = active;
        if seed_cells.contains(idx) {
            active.insert(idx);
        }
        proof {
            let t0 = cells@.take(i as int);
            let t1 = cells@.take(i + 1);
            assert(t1 == t0.push(idx));
            assert forall|x: usize| #[trigger] active.has(x as int) <==> remaining.has(x as int) && seed_cells.has(x as int) && t1.contains(x) by {
                if x == idx {
                    assert(t1[i as int] == idx);
                } else {
                    assert(active.has(x as int) == a0.has(x as int));
                    if t1.contains(x) {
                        let k = choose|k: int| 0 <= k < t1.len() && t1[k] == x;
                        assert(t0[k] == x);
                    }
                    if t0.contains(x) {
                        let k = choose|k: int| 0 <= k < t0.len() && t0[k] == x;
                        assert(t1[k] == x);
                    }
                }
            }
            assert forall|x: int| #[trigger] active.has(x) implies 0 <= x < nb by {
                if x != idx as int {
                    assert(a0.has(x));
                }
            }
        }
        i = i + 1;
    }
    proof {
        assert(cells@.take(i as int) == cells@);
        assert forall|x: int| #[trigger] active.has(x) <==> remaining.has(x) && seed_cells.has(x) by {
            if remaining.has(x) {
                remaining.lemma_has_range(x);
                assert(cells@.contains(x as usize));
                assert(active.has((x as usize) as int) == (remaining.has(x) && seed_cells.has(x)));
            }
            if active.has(x) {
                assert(active.has((x as usize) as int));
            }
        }
    }
    if active.is_empty() {
        let e = remaining.is_empty();
        proof {
            if !e {
                let x = choose|x: int| remaining.has(x);
                if all_reached(h as int, w as int, *pre, *remaining, *seed_cells) {
                    assert(seed_reached(h as int, w as int, *pre, *remaining, *seed_cells, x));
                    let s = choose|s: int| remaining.has(s) && seed_cells.has(s) && #[trigger] linked(h as int, w as int, *pre, *remaining, s, x);
                    assert(active.has(s));
                }
            }
        }
        return e;
    }
    let mut visited = CellSet::new(nb);
    let ghost mut count: nat = 0;
    proof {
        lemma_elems_bound(visited, nb as int);
        visited.lemma_elems(nb as int);
        assert(visited.elems().len() == 0) by {
            if visited.elems().len() > 0 {
                assert(visited.has(visited.elems()[0] as int));
            }
        }
        active.lemma_elems(nb as int);
    }
    let starts = active.iter();
    let mut queue: VecDeque<usize> = VecDeque::new();
    let mut k: usize = 0;
    while k < starts.len()
        invariant
            k <= starts@.len(),
            starts@ == active.elems(),
            forall|j: int| 0 <= j < starts@.len() ==> active.has(#[trigger] starts@[j] as int),
            queue@ == starts@.take(k as int),
        decreases starts@.len() - k,
    {
        queue.push_back(starts[k]);
        proof {
            assert(starts@.take(k + 1) == starts@.take(k as int).push(starts@[k as int]));
        }
        k = k + 1;
    }
    proof {
        assert(starts@.take(k as int) == starts@);
        assert forall|j: int| 0 <= j < queue@.len() implies (#[trigger] queue@[j]) < h * w && remaining.has(queue@[j] as int)
            && seed_reached(h as int, w as int, *pre, *remaining, *seed_cells, queue@[j] as int) by {
            let x = queue@[j] as int;
            assert(active.has(x));
            let p = seq![x];
            assert(walk_in(h as int, w as int, *pre, *remaining, p));
            assert(linked(h as int, w as int, *pre, *remaining, x, x));
        }
        assert forall|x: int| remaining.has(x) && seed_cells.has(x) implies visited.has(x) || queue@.contains(x as usize) by {
            assert(active.has(x));
            active.lemma_has_range(x);
            assert(active.elems().contains(x as usize));
        }
    }
    while queue.len() > 0
        invariant
            nb == remaining.nbits(),
            h * w <= nb,
            nb <= usize::MAX - 63,
            forall|x: int| #[trigger] remaining.has(x) ==> x < h * w,
            visited.wf(),
            visited.nbits() == nb,
            visited.elems().len() == count,
            count <= nb,
            forall|j: int| 0 <= j < queue@.len() ==> (#[trigger] queue@[j]) < h * w && remaining.has(queue@[j] as int)
                && seed_reached(h as int, w as int, *pre, *remaining, *seed_cells, queue@[j] as int),
            forall|x: int| #[trigger] visited.has(x) ==> remaining.has(x) && seed_reached(h as int, w as int, *pre, *remaining, *seed_cells, x),
            forall|x: int| remaining.has(x) && seed_cells.has(x) ==> #[trigger] visited.has(x) || queue@.contains(x as usize),
            forall|v: int, n: int|
                visited.has(v) && remaining.has(n) && #[trigger] flat_neighbours(h as int, w as int, v, n) && !pre_separates(*pre, w as int, v, n)
                    ==> visited.has(n) || queue@.contains(n as usize),
        decreases nb - count, queue@.len(),
    {
        let ghost q0 = queue@;
        let idx = queue.pop_front().unwrap();
        let ghost qb = queue@;
        proof {
            assert(queue@ == q0.drop_first());
            assert(q0[0] == idx);
            assert forall|x: usize| #[trigger] q0.contains(x) && x != idx implies qb.contains(x) by {
                let j = choose|j: int| 0 <= j < q0.len() && q0[j] == x;
                assert(j > 0);
                assert(qb[j - 1] == x);
            }
        }
        if visited.contains(idx) {
            proof {
                assert forall|x: int| remaining.has(x) && seed_cells.has(x) implies #[trigger] visited.has(x) || queue@.contains(x as usize) by {
                    if !visited.has(x) {
                        remaining.lemma_has_range(x);
                        assert(q0.contains(x as usize));
                        assert(x as usize != idx);
                    }
                }
                assert forall|v: int, n: int|
                    visited.has(v) && remaining.has(n) && #[trigger] flat_neighbours(h as int, w as int, v, n) && !pre_separates(*pre, w as int, v, n)
                        implies visited.has(n) || queue@.contains(n as usize) by {
                    if !visited.has(n) {
                        remaining.lemma_has_range(n);
                        assert(q0.contains(n as usize));
                        assert(n as usize != idx);
                    }
                }
            }
            continue;
        }
        let ghost v0 = visited;
        visited.insert(idx);
        proof {
            lemma_elems_insert(visited, v0, idx as int, nb as int);
            lemma_elems_bound(visited, nb as int);
            count = count + 1;
            crate::edge_csp::grid::lemma_pos_bounds(h as int, w as int, idx as int);
        }
        let r = idx / w;
        let c = idx % w;
        let nbrs = neighbor_positions(r, c, h, w);
        let mut t: usize = 0;
        while t < nbrs.len()
            invariant
                nb == remaining.nbits(),
                h * w <= nb,
                forall|x: int| #[trigger] remaining.has(x) ==> x < h * w,
                visited.nbits() == nb,
                visited.has(idx as int),
                remaining.has(idx as int),
                idx < h * w,
                r == idx / w,
                c == idx % w,
                r < h && c < w,
                idx == r * w + c,
                seed_reached(h as int, w as int, *pre, *remaining, *seed_cells, idx as int),
                t <= nbrs@.len(),
                forall|i: int|
                    0 <= i < nbrs@.len() ==> {
                        let (nr, nc) = #[trigger] nbrs@[i];
                        &&& nr < h && nc < w
                        &&& (nr == r && (nc + 1 == c || c + 1 == nc)) || (nc == c && (nr + 1 == r || r + 1 == nr))
                    },
                queue@.len() >= qb.len(),
                forall|j: int| 0 <= j < qb.len() ==> #[trigger] queue@[j] == qb[j],
                forall|j: int| 0 <= j < queue@.len() ==> (#[trigger] queue@[j]) < h * w && remaining.has(queue@[j] as int)
                    && seed_reached(h as int, w as int, *pre, *remaining, *seed_cells, queue@[j] as int),
                forall|i: int|
                    #![trigger nbrs@[i]]
                    0 <= i < t ==> {
                        let n = nbrs@[i].0 * w + nbrs@[i].1;
                        remaining.has(n) && !pre_separates(*pre, w as int, idx as int, n) ==> visited.has(n) || queue@.contains(
                            n as usize,
                        )
                    },
            decreases nbrs@.len() - t,
        {
            let (nr, nc) = nbrs[t];
            proof {
                crate::edge_csp::grid::lemma_cell_id_bound(h as int, w as int, nr as int, nc as int);
            }
            let nidx = nr * w + nc;
            let ghost qt = queue@;
            if remaining.contains(nidx) && !visited.contains(nidx) && !pre.contains(r, c, nr, nc) {
                proof {
                    assert(pre_separates(*pre, w as int, idx as int, nidx as int) == pre@.contains(
                        crate::rose::cells::spec_edge_key(r, c, nr, nc),
                    ));
                    let s = choose|s: int| remaining.has(s) && seed_cells.has(s) && #[trigger] linked(h as int, w as int, *pre, *remaining, s, idx as int);
                    let p = choose|p: Seq<int>| #[trigger] walk_in(h as int, w as int, *pre, *remaining, p) && p[0] == s && p.last() == idx as int;
                    assert(flat_neighbours(h as int, w as int, idx as int, nidx as int));
                    lemma_walk_extend(h as int, w as int, *pre, *remaining, p, nidx as int);
                    assert(linked(h as int, w as int, *pre, *remaining, s, nidx as int));
                }
                queue.push_back(nidx);
                proof {
                    assert(queue@ == qt.push(nidx));
                    assert(queue@[qt.len() as int] == nidx);
                }
            } else {
                proof {
                    assert(pre_separates(*pre, w as int, idx as int, nidx as int) == pre@.contains(
                        crate::rose::cells::spec_edge_key(r, c, nr, nc),
                    ));
                }
            }
            proof {
                assert forall|i: int| #![trigger nbrs@[i]] 0 <= i < t + 1 implies {
                    let n = nbrs@[i].0 * w + nbrs@[i].1;
                    remaining.has(n) && !pre_separates(*pre, w as int, idx as int, n) ==> visited.has(n) || queue@.contains(
                        n as usize,
                    )
                } by {
                    let n = nbrs@[i].0 * w + nbrs@[i].1;
                    if i < t && remaining.has(n) && !pre_separates(*pre, w as int, idx as int, n) && !visited.has(n) {
                        assert(qt.contains(n as usize));
                        let j = choose|j: int| 0 <= j < qt.len() && qt[j] == n as usize;
                        assert(queue@[j] == qt[j]);
                    }
                }
            }
            t = t + 1;
        }
        proof {
            assert forall|x: int| remaining.has(x) && seed_cells.has(x) implies #[trigger] visited.has(x) || queue@.contains(x as usize) by {
                if !visited.has(x) {
                    remaining.lemma_has_range(x);
                    assert(v0.has(x) || q0.contains(x as usize));
                    assert(!v0.has(x));
                    assert(x != idx as int);
                    assert(q0.contains(x as usize) && x as usize != idx);
                    assert(qb.contains(x as usize));
                    let j = choose|j: int| 0 <= j < qb.len() && qb[j] == x as usize;
                    assert(queue@[j] == qb[j]);
                }
            }
            assert forall|v: int, n: int|
                visited.has(v) && remaining.has(n) && #[trigger] flat_neighbours(h as int, w as int, v, n) && !pre_separates(*pre, w as int, v, n)
                    implies visited.has(n) || queue@.contains(n as usize) by {
                if v == idx as int {
                    crate::edge_csp::grid::lemma_pos_bounds(h as int, w as int, n);
                    let nr = (n / w as int) as usize;
                    let nc = (n % w as int) as usize;
                    assert(nbrs@.contains((nr, nc)));
                    let i = choose|i: int| 0 <= i < nbrs@.len() && nbrs@[i] == (nr, nc);
                    assert(nbrs@[i].0 * w + nbrs@[i].1 == n);
                } else if !visited.has(n) {
                    assert(v0.has(v));
                    remaining.lemma_has_range(n);
                    assert(v0.has(n) || q0.contains(n as usize));
                    assert(n != idx as int);
                    assert(q0.contains(n as usize) && n as usize != idx);
                    assert(qb.contains(n as usize));
                    let j = choose|j: int| 0 <= j < qb.len() && qb[j] == n as usize;
                    assert(queue@[j] == qb[j]);
                }
            }
        }
    }
    let covered = remaining.is_subset(&visited);
    proof {
        assert(covered == forall|x: int| remaining.has(x) ==> visited.has(x)) by {
            assert forall|x: int| remaining.has(x) implies 0 <= x < nb by {
                remaining.lemma_has_range(x);
            }
        }
        if covered {
            assert forall|x: int| #[trigger] remaining.has(x) implies seed_reached(h as int, w as int, *pre, *remaining, *seed_cells, x) by {
                assert(visited.has(x));
            }
        } else if all_reached(h as int, w as int, *pre, *remaining, *seed_cells) {
            let x = choose|x: int| remaining.has(x) && !visited.has(x);
            assert(seed_reached(h as int, w as int, *pre, *remaining, *seed_cells, x));
            let s = choose|s: int| remaining.has(s) && seed_cells.has(s) && #[trigger] linked(h as int, w as int, *pre, *remaining, s, x);
            let p = choose|p: Seq<int>| #[trigger] walk_in(h as int, w as int, *pre, *remaining, p) && p[0] == s && p.last() == x;
            assert(visited.has(s));
            lemma_walk_closed(h as int, w as int, *pre, *remaining, visited, p);
        }
    }
    covered
}

/// Whether every connected part of `remaining` has at least
/// `min_component_cells` cells; always so when that minimum is at most 1.
fn parts_large_enough(
    remaining: &CellSet,
    cells: &Vec<usize>,
    pre: &PreBoundaries,
    h: usize,
    w: usize,
    min_component_cells: usize,
) -> (ok: bool)
    requires
        remaining.wf(),
        remaining.nbits() <= usize::MAX - 63,
        h * w <= remaining.nbits(),
        forall|x: int| #[trigger] remaining.has(x) ==> x < h * w,
        forall|j: int| 0 <= j < cells@.len() ==> remaining.has(#[trigger] cells@[j] as int),
        forall|x: int| #[trigger] remaining.has(x) ==> cells@.contains(x as usize),
    ensures
        ok == parts_at_least(h as int, w as int, *pre, *remaining, min_component_cells as int),
{
    proof {
        reveal(parts_at_least);
    }
    if min_component_cells <= 1 {
        proof {
            lemma_parts_nonempty(h as int, w as int, *pre, *remaining);
        }
        return true;
    }
    component_sizes_reach(remaining, cells, pre, h, w, min_component_cells)
}

/// Whether every connected part of `remaining` (cells joined through side
/// neighbours with no pre-drawn boundary between) has at least `min_cells`
/// cells, each part grown breadth-first from its first cell in `cells`.
#[verifier::spinoff_prover]
#[verifier::rlimit(40)]
fn component_sizes_reach(
    remaining: &CellSet,
    cells: &Vec<usize>,
    pre: &PreBoundaries,
    h: usize,
    w: usize,
    min_cells: usize,
) -> (ok: bool)
    requires
        remaining.wf(),
        remaining.nbits() <= usize::MAX - 63,
        h * w <= remaining.nbits(),
        forall|x: int| #[trigger] remaining.has(x) ==> x < h * w,
        forall|j: int| 0 <= j < cells@.len() ==> remaining.has(#[trigger] cells@[j] as int),
        forall|x: int| #[trigger] remaining.has(x) ==> cells@.contains(x as usize),
    ensures
        ok == forall|x: int| #[trigger] remaining.has(x) ==> part_size(h as int, w as int, *pre, *remaining, x) >= min_cells,
{
    let nb = remaining.len_bits();
    let ghost hw: int = h * w;
    let ghost sp = *pre;
    let ghost rs = *remaining;
    proof {
        remaining.lemma_wf_bits();
        assert(hw >= 0) by (nonlinear_arith)
            requires
                hw == h * w,
        ;
    }
    let mut comp_visited = CellSet::new(nb);
    let ghost mut count: nat = 0;
    proof {
        comp_visited.lemma_elems(nb as int);
        assert(comp_visited.elems().len() == 0) by {
            if comp_visited.elems().len() > 0 {
                assert(comp_visited.has(comp_visited.elems()[0] as int));
            }
        }
    }
    let mut i: usize = 0;
    while i < cells.len()
        invariant
            nb == remaining.nbits(),
            h * w <= nb,
            hw == h * w,
            hw >= 0,
            sp == *pre,
            rs == *remaining,
            nb <= usize::MAX - 63,
            forall|x: int| #[trigger] remaining.has(x) ==> x < h * w,
            forall|j: int| 0 <= j < cells@.len() ==> remaining.has(#[trigger] cells@[j] as int),
            comp_visited.wf(),
            comp_visited.nbits() == nb,
            comp_visited.elems().len() == count,
            count <= nb,
            i <= cells@.len(),
            forall|j: int| 0 <= j < i ==> comp_visited.has(#[trigger] cells@[j] as int),
            forall|x: int| #[trigger] comp_visited.has(x) ==> remaining.has(x) && part_size(h as int, w as int, sp, rs, x) >= min_cells,
            forall|v: int, n: int|
                comp_visited.has(v) && remaining.has(n) && #[trigger] flat_neighbours(h as int, w as int, v, n) && !pre_separates(sp, w as int, v, n)
                    ==> comp_visited.has(n),
        decreases cells@.len() - i,
    {
        let start = cells[i];
        proof {
            assert(remaining.has(start as int));
        }
        if !comp_visited.contains(start) {
            let mut comp_size: usize = 0;
            let ghost base = count;
            let ghost base_set = comp_visited;
            let mut q: VecDeque<usize> = VecDeque::new();
            q.push_back(start);
            proof {
                assert(q@[0] == start);
                assert(walk_in(h as int, w as int, sp, rs, seq![start as int]));
                assert(linked(h as int, w as int, sp, rs, start as int, start as int));
            }
            while q.len() > 0
                invariant
                    nb == remaining.nbits(),
                    h * w <= nb,
                    hw == h * w,
                    sp == *pre,
                    rs == *remaining,
                    nb <= usize::MAX - 63,
                    forall|x: int| #[trigger] remaining.has(x) ==> x < h * w,
                    comp_visited.wf(),
                    comp_visited.nbits() == nb,
                    comp_visited.elems().len() == count,
                    base_set.nbits() == nb,
                    base_set.elems().len() == base,
                    count <= nb,
                    base <= count,
                    comp_size == count - base,
                    remaining.has(start as int),
                    !base_set.has(start as int),
                    forall|x: int| #[trigger] base_set.has(x) ==> comp_visited.has(x),
                    forall|x: int| #[trigger] comp_visited.has(x) ==> base_set.has(x) || (remaining.has(x)
                        && linked(h as int, w as int, sp, rs, start as int, x)),
                    comp_visited.has(start as int) || (q@.len() > 0 && q@[0] == start),
                    forall|j: int| 0 <= j < q@.len() ==> (#[trigger] q@[j]) < h * w && remaining.has(q@[j] as int)
                        && linked(h as int, w as int, sp, rs, start as int, q@[j] as int),
                    forall|v: int, n: int|
                        base_set.has(v) && remaining.has(n) && #[trigger] flat_neighbours(h as int, w as int, v, n) && !pre_separates(sp, w as int, v, n)
                            ==> base_set.has(n),
                    forall|v: int, n: int|
                        comp_visited.has(v) && remaining.has(n) && #[trigger] flat_neighbours(h as int, w as int, v, n) && !pre_separates(sp, w as int, v, n)
                            ==> comp_visited.has(n) || q@.contains(n as usize),
                decreases nb - count, q@.len(),
            {
                let ghost q0 = q@;
                let idx = q.pop_front().unwrap();
                let ghost qb = q@;
                proof {
                    assert(q0[0] == idx);
                    assert(idx < h * w);
                    assert forall|j: int| 0 <= j < q@.len() implies #[trigger] q@[j] == q0[j + 1] by {}
                    assert forall|x: usize| #[trigger] q0.contains(x) && x != idx implies qb.contains(x) by {
                        let j = choose|j: int| 0 <= j < q0.len() && q0[j] == x;
                        assert(j > 0);
                        assert(qb[j - 1] == x);
                    }
                }
                if comp_visited.contains(idx) {
                    proof {
                        assert forall|v: int, n: int|
                            comp_visited.has(v) && remaining.has(n) && #[trigger] flat_neighbours(h as int, w as int, v, n) && !pre_separates(sp, w as int, v, n)
                                implies comp_visited.has(n) || q@.contains(n as usize) by {
                            if !comp_visited.has(n) {
                                remaining.lemma_has_range(n);
                                assert(q0.contains(n as usize));
                                assert(n as usize != idx);
                            }
                        }
                    }
                    continue;
                }
                let ghost v0 = comp_visited;
                comp_visited.insert(idx);
                proof {
                    lemma_elems_insert(comp_visited, v0, idx as int, nb as int);
                    lemma_elems_bound(comp_visited, nb as int);
                    count = count + 1;
                    crate::edge_csp::grid::lemma_pos_bounds(h as int, w as int, idx as int);
                }
                comp_size = comp_size + 1;
                let r = idx / w;
                let c = idx % w;
                let nbrs = neighbor_positions(r, c, h, w);
                let mut t: usize = 0;
                while t < nbrs.len()
                    invariant
                        nb == remaining.nbits(),
                        h * w <= nb,
                        sp == *pre,
                        rs == *remaining,
                        comp_visited.nbits() == nb,
                        remaining.has(idx as int),
                        idx < h * w,
                        r == idx / w,
                        c == idx % w,
                        r < h && c < w,
                        idx == r * w + c,
                        linked(h as int, w as int, sp, rs, start as int, idx as int),
                        t <= nbrs@.len(),
                        forall|k: int|
                            0 <= k < nbrs@.len() ==> {
                                let (nr, nc) = #[trigger] nbrs@[k];
                                &&& nr < h && nc < w
                                &&& (nr == r && (nc + 1 == c || c + 1 == nc)) || (nc == c && (nr + 1 == r || r + 1 == nr))
                            },
                        forall|j: int| 0 <= j < q@.len() ==> (#[trigger] q@[j]) < h * w && remaining.has(q@[j] as int)
                            && linked(h as int, w as int, sp, rs, start as int, q@[j] as int),
                        q@.len() >= qb.len(),
                        forall|j: int| 0 <= j < qb.len() ==> #[trigger] q@[j] == qb[j],
                        forall|k: int|
                            #![trigger nbrs@[k]]
                            0 <= k < t ==> {
                                let n = nbrs@[k].0 * w + nbrs@[k].1;
                                remaining.has(n) && !pre_separates(sp, w as int, idx as int, n) ==> comp_visited.has(n) || q@.contains(
                                    n as usize,
                                )
                            },
                    decreases nbrs@.len() - t,
                {
                    let (nr, nc) = nbrs[t];
                    proof {
                        crate::edge_csp::grid::lemma_cell_id_bound(h as int, w as int, nr as int, nc as int);
                    }
                    let nidx = nr * w + nc;
                    let ghost qt = q@;
                    proof {
                        assert(pre_separates(sp, w as int, idx as int, nidx as int) == sp@.contains(
                            crate::rose::cells::spec_edge_key(r, c, nr, nc),
                        ));
                    }
                    if remaining.contains(nidx) && !comp_visited.contains(nidx) && !pre.contains(r, c, nr, nc) {
                        proof {
                            let p = choose|p: Seq<int>| #[trigger] walk_in(h as int, w as int, sp, rs, p) && p[0] == start as int && p.last() == idx as int;
                            assert(flat_neighbours(h as int, w as int, idx as int, nidx as int));
                            lemma_walk_extend(h as int, w as int, sp, rs, p, nidx as int);
                            assert(linked(h as int, w as int, sp, rs, start as int, nidx as int));
                        }
                        q.push_back(nidx);
                        proof {
                            assert(q@ == qt.push(nidx));
                            assert(q@[qt.len() as int] == nidx);
                            assert forall|j: int| 0 <= j < q@.len() implies (#[trigger] q@[j]) < h * w && remaining.has(q@[j] as int)
                                && linked(h as int, w as int, sp, rs, start as int, q@[j] as int) by {
                                if j < qt.len() {
                                    assert(q@[j] == qt[j]);
                                }
                            }
                        }
                    }
                    proof {
                        assert forall|k: int| #![trigger nbrs@[k]] 0 <= k < t + 1 implies {
                            let n = nbrs@[k].0 * w + nbrs@[k].1;
                            remaining.has(n) && !pre_separates(sp, w as int, idx as int, n) ==> comp_visited.has(n) || q@.contains(
                                n as usize,
                            )
                        } by {
                            let n = nbrs@[k].0 * w + nbrs@[k].1;
                            if k < t && remaining.has(n) && !pre_separates(sp, w as int, idx as int, n) && !comp_visited.has(n) {
                                assert(qt.contains(n as usize));
                                let j = choose|j: int| 0 <= j < qt.len() && qt[j] == n as usize;
                                assert(q@[j] == qt[j]);
                            }
                        }
                    }
                    t = t + 1;
                }
                proof {
                    assert forall|v: int, n: int|
                        comp_visited.has(v) && remaining.has(n) && #[trigger] flat_neighbours(h as int, w as int, v, n) && !pre_separates(sp, w as int, v, n)
                            implies comp_visited.has(n) || q@.contains(n as usize) by {
                        if v == idx as int {
                            crate::edge_csp::grid::lemma_pos_bounds(h as int, w as int, n);
                            let nr = (n / w as int) as usize;
                            let nc = (n % w as int) as usize;
                            assert(nbrs@.contains((nr, nc)));
                            let k = choose|k: int| 0 <= k < nbrs@.len() && nbrs@[k] == (nr, nc);
                            assert(nbrs@[k].0 * w + nbrs@[k].1 == n);
                        } else if !comp_visited.has(n) {
                            assert(v0.has(v));
                            remaining.lemma_has_range(n);
                            assert(v0.has(n) || q0.contains(n as usize));
                            assert(n != idx as int);
                            assert(q0.contains(n as usize) && n as usize != idx);
                            assert(qb.contains(n as usize));
                            let j = choose|j: int| 0 <= j < qb.len() && qb[j] == n as usize;
                            assert(q@[j] == qb[j]);
                        }
                    }
                }
            }
            proof {
                assert(comp_visited.has(start as int));
                assert forall|y: int| linked(h as int, w as int, sp, rs, start as int, y) implies #[trigger] comp_visited.has(y)
                    && !base_set.has(y) by {
                    let p = choose|p: Seq<int>| #[trigger] walk_in(h as int, w as int, sp, rs, p) && p[0] == start as int && p.last() == y;
                    lemma_walk_closed(h as int, w as int, sp, rs, comp_visited, p);
                    if base_set.has(y) {
                        let p2 = lemma_walk_reverse(h as int, w as int, sp, rs, p);
                        lemma_walk_closed(h as int, w as int, sp, rs, base_set, p2);
                    }
                }
                base_set.lemma_elems(nb as int);
                lemma_new_members_count(h as int, w as int, sp, rs, start as int, comp_visited, base_set, nb as int);
                lemma_part_count_past_grid(h as int, w as int, sp, rs, start as int, nb as int);
                assert(comp_size == part_size(h as int, w as int, sp, rs, start as int));
            }
            if comp_size < min_cells {
                proof {
                    assert(remaining.has(start as int));
                }
                return false;
            }
            proof {
                assert forall|x: int| #[trigger] comp_visited.has(x) implies remaining.has(x) && part_size(h as int, w as int, sp, rs, x) >= min_cells by {
                    if !base_set.has(x) {
                        lemma_part_count_same(h as int, w as int, sp, rs, start as int, x, hw);
                        reveal(part_size);
                    }
                }
            }
        }
        i = i + 1;
    }
    proof {
        assert forall|x: int| #[trigger] remaining.has(x) implies part_size(h as int, w as int, *pre, *remaining, x) >= min_cells by {
            assert(cells@.contains(x as usize));
            let j = choose|j: int| 0 <= j < cells@.len() && cells@[j] == x as usize;
            assert(comp_visited.has(cells@[j] as int));
            remaining.lemma_has_range(x);
        }
    }
    true
}

} // verus!
