//! Region matching: choose one candidate region per seed so that the chosen
//! regions are pairwise disjoint and together hold exactly the cells to
//! cover (an exact cover), by depth-first search that always branches on the
//! seed with the fewest candidates still compatible (MRV).
//!
//! The search runs within a step budget: every search node costs one step,
//! and when the budget runs out the search gives up.  Given the budget it
//! needed, the search is complete.

use vstd::prelude::*;
use crate::rose::cells::CellSet;

verus! {

/// Every candidate is a well-formed set of cells of `all`, sized like `all`.
pub open spec fn cands_ok(sized: Seq<Vec<CellSet>>, all: CellSet) -> bool {
    forall|i: int, j: int|
        0 <= i < sized.len() && 0 <= j < sized[i]@.len() ==> {
            &&& (#[trigger] sized[i]@[j]).wf()
            &&& sized[i]@[j].nbits() == all.nbits()
            &&& forall|x: int| #[trigger] sized[i]@[j].has(x) ==> all.has(x)
        }
}

/// `sel` picks one candidate of each seed.
pub open spec fn picks(sized: Seq<Vec<CellSet>>, sel: Seq<int>) -> bool {
    &&& sel.len() == sized.len()
    &&& forall|i: int| 0 <= i < sel.len() ==> 0 <= #[trigger] sel[i] < sized[i]@.len()
}

/// The picked regions are pairwise disjoint and hold every cell of `all`.
pub open spec fn exact_cover(sized: Seq<Vec<CellSet>>, sel: Seq<int>, all: CellSet) -> bool {
    &&& picks(sized, sel)
    &&& forall|i: int, k: int, x: int|
        0 <= i < sel.len() && 0 <= k < sel.len() && i != k && #[trigger] sized[i]@[sel[i]].has(x)
            ==> !#[trigger] sized[k]@[sel[k]].has(x)
    &&& forall|x: int| #[trigger] all.has(x) ==> exists|i: int| 0 <= i < sel.len() && #[trigger] sized[i]@[sel[i]].has(x)
}

/// `sel` keeps every pick already made in `asg`.
pub open spec fn agrees(asg: Seq<Option<usize>>, sel: Seq<int>) -> bool {
    forall|i: int| 0 <= i < asg.len() && (#[trigger] asg[i]) is Some ==> sel[i] == asg[i].unwrap()
}

/// The picks made in `asg` are valid and pairwise disjoint.
pub open spec fn partial_ok(sized: Seq<Vec<CellSet>>, asg: Seq<Option<usize>>) -> bool {
    &&& asg.len() == sized.len()
    &&& forall|i: int| 0 <= i < asg.len() && (#[trigger] asg[i]) is Some ==> asg[i].unwrap() < sized[i]@.len()
    &&& forall|i: int, k: int, x: int|
        0 <= i < asg.len() && 0 <= k < asg.len() && i != k && asg[i] is Some && asg[k] is Some && #[trigger] sized[i]@[asg[i].unwrap() as int].has(x) ==> !#[trigger] sized[k]@[asg[k].unwrap() as int].has(x)
}

/// `covered` holds exactly the cells of the regions picked in `asg`.
pub open spec fn covers(sized: Seq<Vec<CellSet>>, asg: Seq<Option<usize>>, covered: CellSet) -> bool {
    forall|x: int| #[trigger] covered.has(x) <==> exists|i: int|
        0 <= i < asg.len() && asg[i] is Some && #[trigger] sized[i]@[asg[i].unwrap() as int].has(x)
}

/// The picks of a complete assignment.
pub open spec fn picked(asg: Seq<Option<usize>>) -> Seq<int> {
    Seq::new(asg.len(), |i: int| asg[i].unwrap() as int)
}

/// The number of seeds still without a pick.
pub open spec fn open_count(asg: Seq<Option<usize>>) -> nat
    decreases asg.len(),
{
    if asg.len() == 0 {
        0
    } else {
        open_count(asg.drop_last()) + if asg.last() is None {
            1nat
        } else {
            0nat
        }
    }
}

proof fn lemma_open_count_pick(asg: Seq<Option<usize>>, i: int, j: usize)
    requires
        0 <= i < asg.len(),
        asg[i] is None,
    ensures
        open_count(asg.update(i, Some(j))) < open_count(asg),
    decreases asg.len(),
{
    let a2 = asg.update(i, Some(j));
    if i < asg.len() - 1 {
        assert(a2.drop_last() == asg.drop_last().update(i, Some(j)));
        lemma_open_count_pick(asg.drop_last(), i, j);
    } else {
        assert(a2.drop_last() == asg.drop_last());
    }
}

/// In an exact cover that keeps the picks of `asg`, the pick of an open
/// seed avoids every covered cell.
proof fn lemma_pick_compatible(
    sized: Seq<Vec<CellSet>>,
    asg: Seq<Option<usize>>,
    covered: CellSet,
    all: CellSet,
    sel: Seq<int>,
    idx: int,
)
    requires
        partial_ok(sized, asg),
        covers(sized, asg, covered),
        exact_cover(sized, sel, all),
        agrees(asg, sel),
        0 <= idx < asg.len(),
        asg[idx] is None,
    ensures
        forall|x: int| #[trigger] covered.has(x) ==> !sized[idx]@[sel[idx]].has(x),
{
    assert forall|x: int| #[trigger] covered.has(x) implies !sized[idx]@[sel[idx]].has(x) by {
        let i = choose|i: int| 0 <= i < asg.len() && asg[i] is Some && #[trigger] sized[i]@[asg[i].unwrap() as int].has(x);
        assert(sel[i] == asg[i].unwrap());
        assert(sized[i]@[sel[i]].has(x));
    }
}

/// Exact-cover search with MRV branching (see the module comment).  `asg`
/// holds the picks made so far and `covered` their cells; each call costs
/// one step of `budget`.  On success `asg` is completed to an exact cover
/// that keeps the earlier picks; on failure `asg` is left as it was, and
/// when budget is left no exact cover keeps the earlier picks.
pub fn match_regions_mrv(
    sized: &Vec<Vec<CellSet>>,
    all: &CellSet,
    covered: &CellSet,
    asg: &mut Vec<Option<usize>>,
    budget: &mut u64,
) -> (found: bool)
    requires
        cands_ok(sized@, *all),
        partial_ok(sized@, old(asg)@),
        covers(sized@, old(asg)@, *covered),
        covered.wf(),
        covered.nbits() == all.nbits(),
    ensures
        *final(budget) <= *old(budget),
        final(asg)@.len() == old(asg)@.len(),
        found ==> {
            &&& forall|i: int| 0 <= i < final(asg)@.len() ==> (#[trigger] final(asg)@[i]) is Some
            &&& exact_cover(sized@, picked(final(asg)@), *all)
            &&& agrees(old(asg)@, picked(final(asg)@))
        },
        !found ==> final(asg)@ == old(asg)@,
        !found && *final(budget) > 0 ==> forall|sel: Seq<int>|
            #[trigger] exact_cover(sized@, sel, *all) ==> !agrees(old(asg)@, sel),
    decreases open_count(old(asg)@),
{
    if *budget == 0 {
        return false;
    }
    *budget = *budget - 1;
    let m = sized.len();
    let mut best_idx: usize = m;
    let mut best: Vec<usize> = Vec::new();
    let mut best_count: usize = usize::MAX;
    let mut idx: usize = 0;
    while idx < m
        invariant
            m == sized@.len(),
            asg@ == old(asg)@,
            partial_ok(sized@, asg@),
            idx <= m,
            best_idx == m || (best_idx < idx && asg@[best_idx as int] is None),
            best_idx == m ==> forall|q: int| 0 <= q < idx ==> (#[trigger] asg@[q]) is Some,
            best_idx < m ==> forall|j: usize|
                j < sized@[best_idx as int]@.len() ==> (#[trigger] best@.contains(j) <==> forall|x: int|
                    #[trigger] covered.has(x) ==> !sized@[best_idx as int]@[j as int].has(x)),
            best_idx < m ==> forall|t: int| 0 <= t < best@.len() ==> (#[trigger] best@[t]) < sized@[best_idx as int]@.len(),
            cands_ok(sized@, *all),
            covered.wf(),
            covered.nbits() == all.nbits(),
            covers(sized@, asg@, *covered),
            *budget <= *old(budget),
        decreases m - idx,
    {
        if asg[idx].is_none() {
            let cands = &sized[idx];
            let mut compat: Vec<usize> = Vec::new();
            let mut j: usize = 0;
            while j < cands.len()
                invariant
                    cands == &sized@[idx as int],
                    idx < m,
                    m == sized@.len(),
                    j <= cands@.len(),
                    forall|q: int| 0 <= q < compat@.len() ==> (#[trigger] compat@[q]) < j,
                    forall|q: usize|
                        q < j ==> (#[trigger] compat@.contains(q) <==> forall|x: int|
                            #[trigger] covered.has(x) ==> !cands@[q as int].has(x)),
                    cands_ok(sized@, *all),
                    covered.nbits() == all.nbits(),
                decreases cands@.len() - j,
            {
                let ghost c0 = compat@;
                proof {
                    assert(cands@[j as int] == sized@[idx as int]@[j as int]);
                }
                let d = cands[j].is_disjoint(covered);
                proof {
                    assert(d == forall|x: int| #[trigger] covered.has(x) ==> !cands@[j as int].has(x)) by {
                        assert forall|x: int| covered.has(x) && cands@[j as int].has(x) implies 0 <= x < cands@[j as int].nbits()
                            && 0 <= x < covered.nbits() by {
                            cands@[j as int].lemma_has_range(x);
                            covered.lemma_has_range(x);
                        }
                    }
                }
                if d {
                    compat.push(j);
                }
                proof {
                    assert forall|q: usize| q < j + 1 implies (#[trigger] compat@.contains(q) <==> forall|x: int|
                        #[trigger] covered.has(x) ==> !cands@[q as int].has(x)) by {
                        if q < j {
                            if compat@.contains(q) {
                                let k = choose|k: int| 0 <= k < compat@.len() && compat@[k] == q;
                                if k < c0.len() {
                                    assert(c0[k] == q);
                                } else {
                                    assert(compat@[k] == j);
                                }
                            }
                            if c0.contains(q) {
                                let k = choose|k: int| 0 <= k < c0.len() && c0[k] == q;
                                assert(compat@[k] == q);
                            }
                        } else {
                            if d {
                                assert(compat@[c0.len() as int] == j);
                            } else {
                                if compat@.contains(q) {
                                    let k = choose|k: int| 0 <= k < compat@.len() && compat@[k] == q;
                                    assert(c0[k] < j);
                                }
                            }
                        }
                    }
                }
                j = j + 1;
            }
            if compat.len() == 0 {
                proof {
                    assert forall|sel: Seq<int>| #[trigger] exact_cover(sized@, sel, *all) implies !agrees(old(asg)@, sel) by {
                        if agrees(old(asg)@, sel) {
                            lemma_pick_compatible(sized@, asg@, *covered, *all, sel, idx as int);
                            let sj = sel[idx as int] as usize;
                            assert(sj as int == sel[idx as int]);
                            assert(compat@.contains(sj));
                        }
                    }
                }
                return false;
            }
            if best_idx == m || compat.len() < best_count {
                best_count = compat.len();
                best_idx = idx;
                best = compat;
            }
        }
        idx = idx + 1;
    }
    if best_idx == m {
        let ok = all.is_subset(covered);
        proof {
            let sel = picked(asg@);
            assert(ok == forall|x: int| #[trigger] all.has(x) ==> covered.has(x)) by {
                assert forall|x: int| all.has(x) implies 0 <= x < all.nbits() by {
                    all.lemma_has_range(x);
                }
            }
            if ok {
                assert forall|x: int| #[trigger] all.has(x) implies exists|i: int| 0 <= i < sel.len() && #[trigger] sized@[i]@[sel[i]].has(x) by {
                    assert(covered.has(x));
                    let i = choose|i: int| 0 <= i < asg@.len() && asg@[i] is Some && #[trigger] sized@[i]@[asg@[i].unwrap() as int].has(x);
                    assert(sel[i] == asg@[i].unwrap());
                }
                assert forall|i: int, k: int, x: int|
                    0 <= i < sel.len() && 0 <= k < sel.len() && i != k && #[trigger] sized@[i]@[sel[i]].has(x)
                        implies !#[trigger] sized@[k]@[sel[k]].has(x) by {
                    assert(asg@[i] is Some && asg@[k] is Some);
                    assert(sel[i] == asg@[i].unwrap() && sel[k] == asg@[k].unwrap());
                }
                assert(agrees(old(asg)@, sel));
            } else {
                assert forall|sel2: Seq<int>| #[trigger] exact_cover(sized@, sel2, *all) implies !agrees(old(asg)@, sel2) by {
                    if agrees(old(asg)@, sel2) {
                        let x = choose|x: int| all.has(x) && !covered.has(x);
                        let i = choose|i: int| 0 <= i < sel2.len() && #[trigger] sized@[i]@[sel2[i]].has(x);
                        assert(asg@[i] is Some);
                        assert(sel2[i] == asg@[i].unwrap());
                    }
                }
            }
        }
        return ok;
    }
    let mut t: usize = 0;
    while t < best.len()
        invariant
            m == sized@.len(),
            best_idx < m,
            asg@ == old(asg)@,
            old(asg)@[best_idx as int] is None,
            partial_ok(sized@, asg@),
            covers(sized@, asg@, *covered),
            cands_ok(sized@, *all),
            covered.wf(),
            covered.nbits() == all.nbits(),
            t <= best@.len(),
            *budget <= *old(budget),
            forall|j: usize|
                j < sized@[best_idx as int]@.len() ==> (#[trigger] best@.contains(j) <==> forall|x: int|
                    #[trigger] covered.has(x) ==> !sized@[best_idx as int]@[j as int].has(x)),
            forall|q: int| 0 <= q < best@.len() ==> (#[trigger] best@[q]) < sized@[best_idx as int]@.len(),
            *budget > 0 ==> forall|q: int, sel: Seq<int>|
                0 <= q < t && #[trigger] exact_cover(sized@, sel, *all) ==> !agrees(
                    old(asg)@.update(best_idx as int, Some(#[trigger] best@[q])),
                    sel,
                ),
        decreases best@.len() - t,
    {
        let j = best[t];
        let cand = &sized[best_idx][j];
        let mut nc = covered.copy();
        nc.union_into(cand);
        let ghost a0 = asg@;
        asg.set(best_idx, Some(j));
        let ghost a1 = asg@;
        let ghost b0 = *budget;
        proof {
            assert(a1 == a0.update(best_idx as int, Some(j)));
            lemma_open_count_pick(a0, best_idx as int, j);
            assert forall|x: int| #[trigger] covered.has(x) implies !cand.has(x) by {
                assert(best@.contains(j));
            }
            assert(partial_ok(sized@, a1)) by {
                assert forall|i: int, k: int, x: int|
                    0 <= i < a1.len() && 0 <= k < a1.len() && i != k && a1[i] is Some && a1[k] is Some && #[trigger] sized@[i]@[a1[i].unwrap() as int].has(x) implies !#[trigger] sized@[k]@[a1[k].unwrap() as int].has(x) by {
                    if i == best_idx as int {
                        if sized@[k]@[a1[k].unwrap() as int].has(x) {
                            assert(covered.has(x));
                        }
                    } else if k == best_idx as int {
                        assert(covered.has(x));
                    }
                }
            }
            assert(covers(sized@, a1, nc)) by {
                assert forall|x: int| #[trigger] nc.has(x) <==> exists|i: int|
                    0 <= i < a1.len() && a1[i] is Some && #[trigger] sized@[i]@[a1[i].unwrap() as int].has(x) by {
                    cand.lemma_has_range(x);
                    if covered.has(x) {
                        let i = choose|i: int| 0 <= i < a0.len() && a0[i] is Some && #[trigger] sized@[i]@[a0[i].unwrap() as int].has(x);
                        assert(a1[i] == a0[i]);
                    }
                    if cand.has(x) {
                        assert(sized@[best_idx as int]@[a1[best_idx as int].unwrap() as int].has(x));
                    }
                    if exists|i: int| 0 <= i < a1.len() && a1[i] is Some && #[trigger] sized@[i]@[a1[i].unwrap() as int].has(x) {
                        let i = choose|i: int| 0 <= i < a1.len() && a1[i] is Some && #[trigger] sized@[i]@[a1[i].unwrap() as int].has(x);
                        if i != best_idx as int {
                            assert(a0[i] == a1[i]);
                            assert(covered.has(x));
                        }
                    }
                }
            }
        }
        if match_regions_mrv(sized, all, &nc, asg, budget) {
            proof {
                let sel = picked(asg@);
                assert forall|i: int| 0 <= i < a0.len() && (#[trigger] a0[i]) is Some implies sel[i] == a0[i].unwrap() by {
                    assert(a1[i] == a0[i]);
                }
            }
            return true;
        }
        asg.set(best_idx, None);
        proof {
            assert(asg@ =~= a0);
        }
        t = t + 1;
    }
    proof {
        if *budget > 0 {
            assert forall|sel: Seq<int>| #[trigger] exact_cover(sized@, sel, *all) implies !agrees(old(asg)@, sel) by {
                if agrees(old(asg)@, sel) {
                    lemma_pick_compatible(sized@, asg@, *covered, *all, sel, best_idx as int);
                    assert(0 <= sel[best_idx as int] < sized@[best_idx as int]@.len());
                    assert(sized@[best_idx as int]@.len() == sized@[best_idx as int].len());
                    let j = sel[best_idx as int] as usize;
                    assert(j as int == sel[best_idx as int]);
                    assert(best@.contains(j));
                    let q = choose|q: int| 0 <= q < best@.len() && best@[q] == j;
                    assert(agrees(old(asg)@.update(best_idx as int, Some(best@[q])), sel));
                }
            }
        }
    }
    false
}

/// Region matching over the candidate regions of each seed (for example
/// those of `generate_all_candidates`): an exact cover of `all_positions` by
/// one candidate per seed, found by `match_regions_mrv` within `budget`
/// search steps.  The result labels every cell with the seed whose region
/// holds it (`None` outside `all_positions`); `Ok(None)` means that no exact
/// cover exists, and `Err` that the budget ran out first.
pub fn solve_by_region_match(candidates: &Vec<Vec<CellSet>>, all_positions: &CellSet, budget: u64) -> (res: Result<
    Option<Vec<Option<usize>>>,
    (),
>)
    requires
        cands_ok(candidates@, *all_positions),
        all_positions.wf(),
        all_positions.nbits() <= usize::MAX - 63,
    ensures
        res matches Ok(Some(labels)) ==> labels@.len() == all_positions.nbits() && exists|sel: Seq<int>|
            #[trigger] exact_cover(candidates@, sel, *all_positions) && forall|x: int|
                0 <= x < labels@.len() ==> {
                    &&& (#[trigger] labels@[x] is None <==> !all_positions.has(x))
                    &&& labels@[x] matches Some(i) ==> i < candidates@.len() && candidates@[i as int]@[sel[i as int]].has(x)
                },
        res is Ok ==> (res == Ok::<Option<Vec<Option<usize>>>, ()>(None) <==> forall|sel: Seq<int>| !#[trigger] exact_cover(
            candidates@,
            sel,
            *all_positions,
        )),
{
    let m = candidates.len();
    let mut asg: Vec<Option<usize>> = Vec::new();
    let mut k: usize = 0;
    while k < m
        invariant
            k <= m,
            m == candidates@.len(),
            asg@.len() == k,
            forall|q: int| 0 <= q < k ==> (#[trigger] asg@[q]) is None,
        decreases m - k,
    {
        asg.push(None);
        k = k + 1;
    }
    proof {
        all_positions.lemma_wf_bits();
    }
    let covered = CellSet::new(all_positions.len_bits());
    let ghost a0 = asg@;
    let mut steps = budget;
    let found = match_regions_mrv(candidates, all_positions, &covered, &mut asg, &mut steps);
    proof {
        assert forall|sel: Seq<int>| sel.len() == a0.len() implies agrees(a0, sel) by {}
    }
    if !found {
        if steps > 0 {
            proof {
                assert forall|sel: Seq<int>| !#[trigger] exact_cover(candidates@, sel, *all_positions) by {
                    if exact_cover(candidates@, sel, *all_positions) {
                        assert(agrees(a0, sel));
                    }
                }
            }
            return Ok(None);
        }
        return Err(());
    }
    let ghost sel = picked(asg@);
    let nb = all_positions.len_bits();
    let mut labels: Vec<Option<usize>> = Vec::new();
    let mut x: usize = 0;
    while x < nb
        invariant
            x <= nb,
            nb == all_positions.nbits(),
            labels@.len() == x,
            forall|q: int| 0 <= q < x ==> (#[trigger] labels@[q]) is None,
        decreases nb - x,
    {
        labels.push(None);
        x = x + 1;
    }
    let mut i: usize = 0;
    while i < m
        invariant
            i <= m,
            m == candidates@.len(),
            nb == all_positions.nbits(),
            labels@.len() == nb,
            asg@.len() == m,
            sel == picked(asg@),
            forall|q: int| 0 <= q < m ==> (#[trigger] asg@[q]) is Some,
            exact_cover(candidates@, sel, *all_positions),
            cands_ok(candidates@, *all_positions),
            forall|y: int|
                0 <= y < nb ==> match #[trigger] labels@[y] {
                    Some(q) => q < i && candidates@[q as int]@[sel[q as int]].has(y),
                    None => forall|q: int| 0 <= q < i ==> !candidates@[q]@[sel[q]].has(y),
                },
        decreases m - i,
    {
        let j = asg[i].unwrap();
        proof {
            assert(sel[i as int] == j as int);
        }
        let cells = candidates[i][j].iter();
        proof {
            candidates@[i as int]@[j as int].lemma_elems(candidates@[i as int]@[j as int].nbits() as int);
        }
        let ghost l0 = labels@;
        let mut t: usize = 0;
        while t < cells.len()
            invariant
                t <= cells@.len(),
                i < m,
                m == candidates@.len(),
                nb == all_positions.nbits(),
                labels@.len() == nb,
                sel == picked(asg@),
                sel[i as int] == j as int,
                exact_cover(candidates@, sel, *all_positions),
                cands_ok(candidates@, *all_positions),
                cells@ == candidates@[i as int]@[j as int].elems(),
                forall|q: int| 0 <= q < cells@.len() ==> candidates@[i as int]@[j as int].has(#[trigger] cells@[q] as int),
                forall|y: int|
                    0 <= y < nb ==> match #[trigger] labels@[y] {
                        Some(q) => (q < i && candidates@[q as int]@[sel[q as int]].has(y)) || (q == i
                            && candidates@[i as int]@[j as int].has(y)),
                        None => (forall|q: int| 0 <= q < i ==> !candidates@[q]@[sel[q]].has(y)) && (candidates@[
                            i as int]@[j as int].has(y) ==> !cells@.take(t as int).contains(y as usize)),
                    },
            decreases cells@.len() - t,
        {
            let c = cells[t];
            proof {
                assert(candidates@[i as int]@[j as int].has(c as int));
                candidates@[i as int]@[j as int].lemma_has_range(c as int);
            }
            labels.set(c, Some(i));
            proof {
                assert forall|y: int| 0 <= y < nb implies match #[trigger] labels@[y] {
                    Some(q) => (q < i && candidates@[q as int]@[sel[q as int]].has(y)) || (q == i
                        && candidates@[i as int]@[j as int].has(y)),
                    None => (forall|q: int| 0 <= q < i ==> !candidates@[q]@[sel[q]].has(y)) && (candidates@[
                        i as int]@[j as int].has(y) ==> !cells@.take(t + 1).contains(y as usize)),
                } by {
                    if y != c as int {
                        if cells@.take(t + 1).contains(y as usize) {
                            let tk = cells@.take(t + 1);
                            let k = choose|k: int| 0 <= k < tk.len() && #[trigger] tk[k] == y as usize;
                            assert(cells@.take(t as int)[k] == y as usize);
                        }
                    }
                }
            }
            t = t + 1;
        }
        proof {
            assert(cells@.take(t as int) == cells@);
            assert forall|y: int| 0 <= y < nb implies match #[trigger] labels@[y] {
                Some(q) => q < i + 1 && candidates@[q as int]@[sel[q as int]].has(y),
                None => forall|q: int| 0 <= q < i + 1 ==> !candidates@[q]@[sel[q]].has(y),
            } by {
                if labels@[y] is None && candidates@[i as int]@[j as int].has(y) {
                    candidates@[i as int]@[j as int].lemma_elems(candidates@[i as int]@[j as int].nbits() as int);
                    assert(cells@.contains(y as usize));
                }
            }
        }
        i = i + 1;
    }
    proof {
        assert forall|y: int| 0 <= y < labels@.len() implies (#[trigger] labels@[y] is None <==> !all_positions.has(y))
            && (labels@[y] matches Some(q) ==> q < candidates@.len() && candidates@[q as int]@[sel[q as int]].has(y)) by {
            if all_positions.has(y) && labels@[y] is None {
                let q = choose|q: int| 0 <= q < sel.len() && #[trigger] candidates@[q]@[sel[q]].has(y);
            }
        }
    }
    Ok(Some(labels))
}

} // verus!
