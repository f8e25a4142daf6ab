//! Area relations across cut clue edges over the cached components:
//! difference clues (the two areas differ by the clue value) and inequality
//! clues (one area is smaller than the other).

use vstd::prelude::*;
use crate::edge_csp::grid::{lemma_edge_cells_between, lemma_wf_bounds};
use crate::edge_csp::prop::force_all;
use crate::edge_csp::solver::Solver;
use crate::edge_csp::components::min_int;
use crate::edge_csp::types::{EdgeClueKind, EdgeId, EdgeState};

verus! {

/// The areas the unsealed side of a difference clue can have: `s + v`, and
/// `s - v` when positive, kept within `[lo, hi]`.
pub open spec fn diff_cands(s: int, v: int, lo: int, hi: int) -> Seq<int> {
    let c1 = s + v;
    let c2 = s - v;
    let has1 = lo <= c1 <= hi;
    let has2 = s > v && lo <= c2 <= hi;
    if has1 && has2 {
        seq![c1, c2]
    } else if has1 {
        seq![c1]
    } else if has2 {
        seq![c2]
    } else {
        Seq::empty()
    }
}

/// The undecided edges of `list` under `edges`, in order.
pub open spec fn unknown_in(edges: Seq<EdgeState>, list: Seq<EdgeId>) -> Seq<EdgeId>
    decreases list.len(),
{
    if list.len() == 0 {
        Seq::empty()
    } else {
        let p = unknown_in(edges, list.drop_last());
        if edges[list.last() as int] == EdgeState::Unknown {
            p.push(list.last())
        } else {
            p
        }
    }
}

impl Solver {
    /// The component data the area propagators read is in place.
    pub open spec fn comps_indexed(&self) -> bool {
        let n = self.grid.n_cells();
        let k = self.curr_comp_sz@.len();
        &&& self.curr_comp_id@.len() == n
        &&& forall|c: int| 0 <= c < n && self.grid.cell_exists@[c] ==> #[trigger] self.curr_comp_id@[c] < k
        &&& self.curr_target_area@.len() == k
        &&& self.prop.curr_min_area@.len() == k
        &&& self.prop.curr_max_area@.len() == k
        &&& self.prop.growth_edges@.len() == k
        &&& forall|ci: int| 0 <= ci < k ==> #[trigger] self.curr_comp_sz@[ci] <= n
        &&& forall|ci: int, j: int|
            0 <= ci < k && 0 <= j < self.prop.growth_edges@[ci]@.len() ==> #[trigger] self.prop.growth_edges@[ci]@[j]
                < self.grid.n_edges()
    }

    /// Difference clues name edges, and their values leave room for the
    /// area arithmetic.
    pub open spec fn diffs_fit(&self) -> bool {
        forall|i: int|
            0 <= i < self.prop.diff_clues@.len() ==> (#[trigger] self.prop.diff_clues@[i]).0 < self.grid.n_edges()
                && self.prop.diff_clues@[i].1 + self.grid.n_cells() <= usize::MAX
    }

    /// One difference clue `(e, v)` folded into the running targets and the
    /// edges to cut; `None` on a contradiction.  Only a cut clue edge between
    /// two existing cells of different components counts.  Both sides
    /// sealed: their sizes must differ by `v`.  One side sealed at size `s`:
    /// the other's area is one of `diff_cands` within its bounds (none is a
    /// contradiction); an existing target must be one of them; a single
    /// candidate becomes the target, must hold the component, and when the
    /// component already has that size its undecided growth edges are cut.
    pub open spec fn diff_step(&self, st: Option<(Seq<Option<usize>>, Seq<EdgeId>)>, clue: (EdgeId, usize)) -> Option<
        (Seq<Option<usize>>, Seq<EdgeId>),
    > {
        match st {
            None => None,
            Some((tg, fc)) => {
                let (e, v) = clue;
                let (a, b) = self.grid.spec_edge_cells(e as int);
                let ci1 = self.curr_comp_id@[a] as int;
                let ci2 = self.curr_comp_id@[b] as int;
                let s1 = self.spec_sealed(ci1);
                let s2 = self.spec_sealed(ci2);
                if self.edges@[e as int] != EdgeState::Cut || !self.grid.cell_exists@[a] || !self.grid.cell_exists@[b]
                    || ci1 == ci2 || (!s1 && !s2) {
                    Some((tg, fc))
                } else if s1 && s2 {
                    let d = self.curr_comp_sz@[ci1] - self.curr_comp_sz@[ci2];
                    if (if d >= 0 {
                        d
                    } else {
                        -d
                    }) != v {
                        None
                    } else {
                        Some((tg, fc))
                    }
                } else {
                    let sc = if s1 {
                        ci1
                    } else {
                        ci2
                    };
                    let oc = if s1 {
                        ci2
                    } else {
                        ci1
                    };
                    let cands = diff_cands(
                        self.curr_comp_sz@[sc] as int,
                        v as int,
                        self.prop.curr_min_area@[oc] as int,
                        self.prop.curr_max_area@[oc] as int,
                    );
                    if cands.len() == 0 {
                        None
                    } else if tg[oc] is Some {
                        if cands.contains(tg[oc].unwrap() as int) {
                            Some((tg, fc))
                        } else {
                            None
                        }
                    } else if cands.len() == 1 {
                        let nt = cands[0];
                        if self.curr_comp_sz@[oc] > nt {
                            None
                        } else if self.curr_comp_sz@[oc] == nt {
                            Some(
                                (
                                    tg.update(oc, Some(nt as usize)),
                                    fc + unknown_in(self.edges@, self.prop.growth_edges@[oc]@),
                                ),
                            )
                        } else {
                            Some((tg.update(oc, Some(nt as usize)), fc))
                        }
                    } else {
                        Some((tg, fc))
                    }
                }
            },
        }
    }

    /// The first `k` difference clues folded from the current targets.
    pub open spec fn diff_run(&self, k: int) -> Option<(Seq<Option<usize>>, Seq<EdgeId>)>
        decreases k,
    {
        if k <= 0 {
            Some((self.curr_target_area@, Seq::empty()))
        } else {
            self.diff_step(self.diff_run(k - 1), self.prop.diff_clues@[k - 1])
        }
    }

    proof fn lemma_diff_none(&self, k: int)
        requires
            0 <= k <= self.prop.diff_clues@.len(),
            self.diff_run(k) is None,
        ensures
            self.diff_run(self.prop.diff_clues@.len() as int) is None,
        decreases self.prop.diff_clues@.len() - k,
    {
        if k < self.prop.diff_clues@.len() {
            self.lemma_diff_none(k + 1);
        }
    }

    /// The undecided edges of growth list `list`.
    fn unknown_growth(&self, list: &Vec<EdgeId>) -> (out: Vec<EdgeId>)
        requires
            forall|j: int| 0 <= j < list@.len() ==> #[trigger] list@[j] < self.edges@.len(),
        ensures
            out@ == unknown_in(self.edges@, list@),
            forall|j: int| 0 <= j < out@.len() ==> #[trigger] out@[j] < self.edges@.len() && self.edges@[out@[j] as int]
                == EdgeState::Unknown,
    {
        let mut out: Vec<EdgeId> = Vec::new();
        let mut i: usize = 0;
        while i < list.len()
            invariant
                forall|j: int| 0 <= j < list@.len() ==> #[trigger] list@[j] < self.edges@.len(),
                i <= list@.len(),
                out@ == unknown_in(self.edges@, list@.take(i as int)),
                forall|j: int| 0 <= j < out@.len() ==> #[trigger] out@[j] < self.edges@.len() && self.edges@[out@[j] as int]
                    == EdgeState::Unknown,
            decreases list@.len() - i,
        {
            let g = list[i];
            proof {
                assert(list@.take(i + 1).drop_last() == list@.take(i as int));
                assert(list@.take(i + 1).last() == g);
            }
            if self.edges[g] == EdgeState::Unknown {
                out.push(g);
            }
            i = i + 1;
        }
        proof {
            assert(list@.take(i as int) == list@);
        }
        out
    }

    /// Difference clue propagation (see `diff_step`), clue by clue; the
    /// growth edges gathered are then cut.  The result is whether any edge
    /// was decided.
    pub fn propagate_diff_clues(&mut self, num_comp: usize) -> (r: Result<bool, ()>)
        requires
            old(self).trail_ok(),
            old(self).comps_indexed(),
            old(self).diffs_fit(),
        ensures
            final(self).trail_ok(),
            final(self).grid == old(self).grid,
            final(self).curr_comp_id == old(self).curr_comp_id,
            final(self).curr_comp_sz == old(self).curr_comp_sz,
            final(self).prop == old(self).prop,
            final(self).can_grow_buf == old(self).can_grow_buf,
            final(self).pre_marked == old(self).pre_marked,
            final(self).is_pre_cut == old(self).is_pre_cut,
            match old(self).diff_run(old(self).prop.diff_clues@.len() as int) {
                None => r is Err && final(self).edges@ == old(self).edges@,
                Some((tg, fc)) => {
                    &&& r == Ok::<bool, ()>(fc.len() > 0)
                    &&& final(self).curr_target_area@ == tg
                    &&& final(self).edges@ == force_all(old(self).edges@, fc, EdgeState::Cut)
                },
            },
    {
        proof {
            lemma_wf_bounds(self.grid);
        }
        let ghost s0 = *self;
        let mut forced: Vec<EdgeId> = Vec::new();
        let mut i: usize = 0;
        while i < self.prop.diff_clues.len()
            invariant
                self.trail_ok(),
                s0 == *old(self),
                s0.comps_indexed(),
                s0.diffs_fit(),
                self.grid == s0.grid,
                self.edges == s0.edges,
                self.changed == s0.changed,
                self.curr_unknown == s0.curr_unknown,
                self.curr_comp_id == s0.curr_comp_id,
                self.curr_comp_sz == s0.curr_comp_sz,
                self.prop == s0.prop,
                self.can_grow_buf == s0.can_grow_buf,
                self.pre_marked == s0.pre_marked,
                self.is_pre_cut == s0.is_pre_cut,
                self.curr_target_area@.len() == s0.curr_target_area@.len(),
                i <= s0.prop.diff_clues@.len(),
                s0.diff_run(i as int) == Some((self.curr_target_area@, forced@)),
                forall|j: int| 0 <= j < forced@.len() ==> #[trigger] forced@[j] < s0.grid.n_edges() && s0.edges@[forced@[j] as int]
                    == EdgeState::Unknown,
            decreases s0.prop.diff_clues@.len() - i,
        {
            let (e, value) = self.prop.diff_clues[i];
            proof {
                assert(s0.prop.diff_clues@[i as int].0 < s0.grid.n_edges());
                assert(value + s0.grid.n_cells() <= usize::MAX);
                lemma_edge_cells_between(self.grid, e as int);
            }
            let ghost tg0 = self.curr_target_area@;
            let ghost fc0 = forced@;
            if self.edges[e] == EdgeState::Cut {
                let (c1, c2) = self.grid.edge_cells(e);
                if self.grid.cell_exists[c1] && self.grid.cell_exists[c2] {
                    let ci1 = self.curr_comp_id[c1];
                    let ci2 = self.curr_comp_id[c2];
                    if ci1 != ci2 {
                        let sealed1 = self.is_sealed(ci1);
                        let sealed2 = self.is_sealed(ci2);
                        if sealed1 && sealed2 {
                            let z1 = self.curr_comp_sz[ci1];
                            let z2 = self.curr_comp_sz[ci2];
                            let d = if z1 >= z2 {
                                z1 - z2
                            } else {
                                z2 - z1
                            };
                            if d != value {
                                proof {
                                    s0.lemma_diff_none(i + 1);
                                }
                                return Err(());
                            }
                        } else if sealed1 || sealed2 {
                            let sc = if sealed1 {
                                ci1
                            } else {
                                ci2
                            };
                            let oc = if sealed1 {
                                ci2
                            } else {
                                ci1
                            };
                            let sealed_sz = self.curr_comp_sz[sc];
                            let min_area = self.prop.curr_min_area[oc];
                            let max_area = self.prop.curr_max_area[oc];
                            let mut candidates: Vec<usize> = Vec::new();
                            let c_up = sealed_sz + value;
                            if min_area <= c_up && c_up <= max_area {
                                candidates.push(c_up);
                            }
                            if sealed_sz > value {
                                let c_down = sealed_sz - value;
                                if min_area <= c_down && c_down <= max_area {
                                    candidates.push(c_down);
                                }
                            }
                            let ghost cands = diff_cands(sealed_sz as int, value as int, min_area as int, max_area as int);
                            proof {
                                assert(candidates@.len() == cands.len());
                                assert(forall|q: int| 0 <= q < cands.len() ==> candidates@[q] as int == #[trigger] cands[q]);
                            }
                            if candidates.len() == 0 {
                                proof {
                                    s0.lemma_diff_none(i + 1);
                                }
                                return Err(());
                            }
                            match self.curr_target_area[oc] {
                                Some(existing) => {
                                    let mut found = false;
                                    let mut q: usize = 0;
                                    while q < candidates.len()
                                        invariant
                                            q <= candidates@.len(),
                                            found == exists|t: int| 0 <= t < q && #[trigger] candidates@[t] == existing,
                                        decreases candidates@.len() - q,
                                    {
                                        if candidates[q] == existing {
                                            found = true;
                                        }
                                        q = q + 1;
                                    }
                                    proof {
                                        if found {
                                            let t = choose|t: int| 0 <= t < q && #[trigger] candidates@[t] == existing;
                                            assert(cands[t] == existing as int);
                                            assert(cands.contains(existing as int));
                                        }
                                        if cands.contains(existing as int) {
                                            let t = choose|t: int| 0 <= t < cands.len() && cands[t] == existing as int;
                                            assert(candidates@[t] == existing);
                                        }
                                    }
                                    if !found {
                                        proof {
                                            s0.lemma_diff_none(i + 1);
                                        }
                                        return Err(());
                                    }
                                },
                                None => {
                                    if candidates.len() == 1 {
                                        let new_target = candidates[0];
                                        if self.curr_comp_sz[oc] > new_target {
                                            proof {
                                                s0.lemma_diff_none(i + 1);
                                            }
                                            return Err(());
                                        }
                                        self.curr_target_area.set(oc, Some(new_target));
                                        if self.curr_comp_sz[oc] == new_target {
                                            proof {
                                                assert(s0.comps_indexed());
                                                assert(forall|j: int|
                                                    0 <= j < self.prop.growth_edges@[oc as int]@.len() ==> #[trigger] self.prop.growth_edges@[oc as int]@[j]
                                                        < s0.grid.n_edges());
                                            }
                                            let more = self.unknown_growth(&self.prop.growth_edges[oc]);
                                            let ghost f1 = forced@;
                                            let mut more = more;
                                            let ghost m0 = more@;
                                            forced.append(&mut more);
                                            proof {
                                                assert forall|j: int| 0 <= j < forced@.len() implies #[trigger] forced@[j]
                                                    < s0.grid.n_edges() && s0.edges@[forced@[j] as int] == EdgeState::Unknown by {
                                                    if j < f1.len() {
                                                        assert(forced@[j] == f1[j]);
                                                    } else {
                                                        assert(forced@[j] == m0[j - f1.len()]);
                                                    }
                                                }
                                            }
                                        }
                                    }
                                },
                            }
                        }
                    }
                }
            }
            proof {
                assert(s0.diff_run(i + 1) == Some((self.curr_target_area@, forced@)));
            }
            i = i + 1;
        }
        let mut progress = false;
        let mut k: usize = 0;
        while k < forced.len()
            invariant
                self.trail_ok(),
                s0 == *old(self),
                s0.diff_run(s0.prop.diff_clues@.len() as int) == Some((self.curr_target_area@, forced@)),
                self.grid == s0.grid,
                self.curr_comp_id == s0.curr_comp_id,
                self.curr_comp_sz == s0.curr_comp_sz,
                self.prop == s0.prop,
                self.can_grow_buf == s0.can_grow_buf,
                self.pre_marked == s0.pre_marked,
                self.is_pre_cut == s0.is_pre_cut,
                self.edges@.len() == s0.edges@.len(),
                k <= forced@.len(),
                forall|j: int| 0 <= j < forced@.len() ==> #[trigger] forced@[j] < s0.grid.n_edges() && s0.edges@[forced@[j] as int]
                    == EdgeState::Unknown,
                self.edges@ == force_all(s0.edges@, forced@.take(k as int), EdgeState::Cut),
                progress == (k > 0),
            decreases forced@.len() - k,
        {
            let e = forced[k];
            let ghost cur = self.edges@;
            let ghost t0 = forced@.take(k as int);
            let ghost t1 = forced@.take(k + 1);
            proof {
                assert(t1 == t0.push(e));
            }
            proof {
                if k == 0 {
                    assert(t0 =~= Seq::<EdgeId>::empty());
                    assert(cur[e as int] == s0.edges@[e as int]);
                }
            }
            if self.edges[e] == EdgeState::Unknown {
                let ok = self.set_edge(e, EdgeState::Cut);
                progress = true;
            }
            proof {
                lemma_wf_bounds(self.grid);
                assert forall|x: int| 0 <= x < self.edges@.len() implies #[trigger] self.edges@[x] == force_all(s0.edges@, t1, EdgeState::Cut)[x] by {
                    let xu = x as usize;
                    assert(xu as int == x);
                    if x == e as int {
                        assert(t1[k as int] == e);
                    } else {
                        if t1.contains(xu) {
                            let q = choose|q: int| 0 <= q < t1.len() && t1[q] == xu;
                            assert(t0[q] == xu);
                        }
                        if t0.contains(xu) {
                            let q = choose|q: int| 0 <= q < t0.len() && t0[q] == xu;
                            assert(t1[q] == xu);
                        }
                    }
                }
                assert(self.edges@ =~= force_all(s0.edges@, t1, EdgeState::Cut));
            }
            k = k + 1;
        }
        proof {
            assert(forced@.take(k as int) == forced@);
        }
        Ok(progress)
    }
}


/// `x - 1`, but not below 0.
pub open spec fn dec_sat(x: int) -> int {
    if x >= 1 {
        x - 1
    } else {
        0
    }
}

/// `x + 1`, but not above `usize::MAX`.
pub open spec fn inc_sat(x: int) -> int {
    if x < usize::MAX {
        x + 1
    } else {
        usize::MAX as int
    }
}

/// The total width of the bounds, counting crossed bounds as 0.
pub open spec fn gap_sum(mins: Seq<usize>, maxs: Seq<usize>, k: int) -> int
    decreases k,
{
    if k <= 0 {
        0
    } else {
        gap_sum(mins, maxs, k - 1) + if maxs[k - 1] >= mins[k - 1] {
            maxs[k - 1] - mins[k - 1]
        } else {
            0
        }
    }
}

proof fn lemma_gap_mono(m0: Seq<usize>, x0: Seq<usize>, m1: Seq<usize>, x1: Seq<usize>, k: int)
    requires
        0 <= k <= m0.len(),
        m0.len() == x0.len(),
        m1.len() == m0.len(),
        x1.len() == m0.len(),
        forall|i: int| 0 <= i < k ==> m1[i] >= m0[i] && x1[i] <= x0[i],
    ensures
        0 <= gap_sum(m1, x1, k) <= gap_sum(m0, x0, k),
        (exists|i: int| 0 <= i < k && (m1[i] > m0[i] || x1[i] < x0[i]) && m1[i] <= x1[i]) ==> gap_sum(m1, x1, k)
            < gap_sum(m0, x0, k),
    decreases k,
{
    if k > 0 {
        lemma_gap_mono(m0, x0, m1, x1, k - 1);
        if exists|i: int| 0 <= i < k && (m1[i] > m0[i] || x1[i] < x0[i]) && m1[i] <= x1[i] {
            let i = choose|i: int| 0 <= i < k && (m1[i] > m0[i] || x1[i] < x0[i]) && m1[i] <= x1[i];
            if i < k - 1 {
                assert(exists|j: int| 0 <= j < k - 1 && (m1[j] > m0[j] || x1[j] < x0[j]) && m1[j] <= x1[j]);
            }
        }
    }
}

/// The pairs `(smaller, larger)` name components among `k`.
pub open spec fn pairs_in(pairs: Seq<(usize, usize)>, k: int) -> bool {
    forall|i: int| 0 <= i < pairs.len() ==> (#[trigger] pairs[i]).0 < k && pairs[i].1 < k
}

/// Component `ci` takes part in some pair.
pub open spec fn in_pairs(pairs: Seq<(usize, usize)>, ci: int) -> bool {
    exists|i: int| 0 <= i < pairs.len() && ((#[trigger] pairs[i]).0 == ci || pairs[i].1 == ci)
}

/// Areas `a`, one per component, within the bounds `mins`/`maxs`, at least
/// the sizes `sz`, and ordered as every pair `(smaller, larger)` says.
pub open spec fn fits(
    a: Seq<int>,
    mins: Seq<usize>,
    maxs: Seq<usize>,
    sz: Seq<usize>,
    pairs: Seq<(usize, usize)>,
) -> bool {
    &&& a.len() == sz.len()
    &&& forall|ci: int| 0 <= ci < sz.len() ==> mins[ci] <= #[trigger] a[ci] <= maxs[ci] && a[ci] >= sz[ci]
    &&& forall|i: int| 0 <= i < pairs.len() ==> a[(#[trigger] pairs[i]).0 as int] < a[pairs[i].1 as int]
}

impl Solver {
    /// Areas `a` (one per component) that an inequality narrowing must keep:
    /// within the current bounds, at least the current sizes, and ordered
    /// as every pair says.
    pub open spec fn areas_fit(&self, a: Seq<int>, pairs: Seq<(usize, usize)>) -> bool {
        fits(a, self.prop.curr_min_area@, self.prop.curr_max_area@, self.curr_comp_sz@, pairs)
    }

    /// Every pair's bounds are consistent: the smaller side's maximum is
    /// below the larger's, the larger's minimum above the smaller's.
    pub open spec fn pairs_settled(&self, pairs: Seq<(usize, usize)>) -> bool {
        forall|i: int|
            0 <= i < pairs.len() ==> self.prop.curr_max_area@[(#[trigger] pairs[i]).0 as int] <= dec_sat(
                self.prop.curr_max_area@[pairs[i].1 as int] as int,
            ) && self.prop.curr_min_area@[pairs[i].1 as int] >= inc_sat(self.prop.curr_min_area@[pairs[i].0 as int] as int)
    }

    /// One tightening round over the pairs: the smaller side's maximum
    /// drops below the larger's, the larger side's minimum rises above the
    /// smaller's.  The result is whether any bound moved; every choice of
    /// areas that fits the old bounds still fits the new ones.
    #[verifier::spinoff_prover]
    #[verifier::rlimit(40)]
    fn tighten_round(&mut self, pairs: &Vec<(usize, usize)>) -> (changed: bool)
        requires
            old(self).prop.curr_min_area@.len() == old(self).curr_comp_sz@.len(),
            old(self).prop.curr_max_area@.len() == old(self).curr_comp_sz@.len(),
            pairs_in(pairs@, old(self).curr_comp_sz@.len() as int),
        ensures
            *final(self) == (Solver {
                prop: crate::edge_csp::prop::PropagationState {
                    curr_min_area: final(self).prop.curr_min_area,
                    curr_max_area: final(self).prop.curr_max_area,
                    ..old(self).prop
                },
                ..*old(self)
            }),
            final(self).prop.curr_min_area@.len() == old(self).curr_comp_sz@.len(),
            final(self).prop.curr_max_area@.len() == old(self).curr_comp_sz@.len(),
            forall|ci: int|
                0 <= ci < old(self).curr_comp_sz@.len() ==> #[trigger] final(self).prop.curr_min_area@[ci] >= old(self).prop.curr_min_area@[ci]
                    && final(self).prop.curr_max_area@[ci] <= old(self).prop.curr_max_area@[ci],
            forall|ci: int|
                0 <= ci < old(self).curr_comp_sz@.len() && !#[trigger] in_pairs(pairs@, ci) ==> final(self).prop.curr_min_area@[ci]
                    == old(self).prop.curr_min_area@[ci] && final(self).prop.curr_max_area@[ci] == old(self).prop.curr_max_area@[ci],
            changed ==> exists|ci: int|
                0 <= ci < old(self).curr_comp_sz@.len() && #[trigger] in_pairs(pairs@, ci) && (final(self).prop.curr_min_area@[ci]
                    > old(self).prop.curr_min_area@[ci] || final(self).prop.curr_max_area@[ci] < old(self).prop.curr_max_area@[ci]),
            !changed ==> final(self).prop.curr_min_area@ == old(self).prop.curr_min_area@
                && final(self).prop.curr_max_area@ == old(self).prop.curr_max_area@ && old(self).pairs_settled(pairs@),
            forall|a: Seq<int>| #[trigger] fits(a, old(self).prop.curr_min_area@, old(self).prop.curr_max_area@, old(self).curr_comp_sz@, pairs@) ==> fits(
                a,
                final(self).prop.curr_min_area@,
                final(self).prop.curr_max_area@,
                old(self).curr_comp_sz@,
                pairs@,
            ),
    {
        let ghost k = old(self).curr_comp_sz@.len();
        let ghost m_start = old(self).prop.curr_min_area@;
        let ghost x_start = old(self).prop.curr_max_area@;
        let mut changed = false;
        let ghost mut wit_g: int = 0;
        let mut i: usize = 0;
        while i < pairs.len()
            invariant
                *self == (Solver {
                    prop: crate::edge_csp::prop::PropagationState {
                        curr_min_area: self.prop.curr_min_area,
                        curr_max_area: self.prop.curr_max_area,
                        ..old(self).prop
                    },
                    ..*old(self)
                }),
                k == old(self).curr_comp_sz@.len(),
                pairs_in(pairs@, k as int),
                self.prop.curr_min_area@.len() == k,
                self.prop.curr_max_area@.len() == k,
                m_start.len() == k,
                x_start.len() == k,
                i <= pairs@.len(),
                forall|ci: int|
                    0 <= ci < k ==> #[trigger] self.prop.curr_min_area@[ci] >= m_start[ci] && self.prop.curr_max_area@[ci]
                        <= x_start[ci],
                forall|ci: int|
                    0 <= ci < k && !#[trigger] in_pairs(pairs@, ci) ==> self.prop.curr_min_area@[ci] == m_start[ci]
                        && self.prop.curr_max_area@[ci] == x_start[ci],
                changed ==> 0 <= wit_g < k && (self.prop.curr_min_area@[wit_g] > m_start[wit_g]
                    || self.prop.curr_max_area@[wit_g] < x_start[wit_g]),
                !changed ==> self.prop.curr_min_area@ == m_start && self.prop.curr_max_area@ == x_start,
                !changed ==> forall|j: int|
                    0 <= j < i ==> self.prop.curr_max_area@[(#[trigger] pairs@[j]).0 as int] <= dec_sat(
                        self.prop.curr_max_area@[pairs@[j].1 as int] as int,
                    ) && self.prop.curr_min_area@[pairs@[j].1 as int] >= inc_sat(
                        self.prop.curr_min_area@[pairs@[j].0 as int] as int,
                    ),
                forall|a: Seq<int>| #[trigger] fits(a, m_start, x_start, old(self).curr_comp_sz@, pairs@) ==> fits(
                    a,
                    self.prop.curr_min_area@,
                    self.prop.curr_max_area@,
                    old(self).curr_comp_sz@,
                    pairs@,
                ),
            decreases pairs@.len() - i,
        {
            let (sm, lg) = pairs[i];
            proof {
                assert(sm < k && lg < k);
                assert(in_pairs(pairs@, sm as int));
                assert(in_pairs(pairs@, lg as int));
            }
            let ml = self.prop.curr_max_area[lg];
            let new_max_s = if ml >= 1 {
                ml - 1
            } else {
                0
            };
            let ghost mn0 = self.prop.curr_min_area@;
            let ghost mx0 = self.prop.curr_max_area@;
            let ghost ch0 = changed;
            if self.prop.curr_max_area[sm] > new_max_s {
                self.prop.curr_max_area.set(sm, new_max_s);
                changed = true;
                proof {
                    wit_g = sm as int;
                }
            }
            let ms = self.prop.curr_min_area[sm];
            let new_min_l = if ms < usize::MAX {
                ms + 1
            } else {
                usize::MAX
            };
            if self.prop.curr_min_area[lg] < new_min_l {
                self.prop.curr_min_area.set(lg, new_min_l);
                changed = true;
                proof {
                    wit_g = lg as int;
                }
            }
            proof {
                assert forall|a: Seq<int>| #[trigger] fits(a, m_start, x_start, old(self).curr_comp_sz@, pairs@) implies fits(
                    a,
                    self.prop.curr_min_area@,
                    self.prop.curr_max_area@,
                    old(self).curr_comp_sz@,
                    pairs@,
                ) by {
                    assert(fits(a, mn0, mx0, old(self).curr_comp_sz@, pairs@));
                    assert(a[pairs@[i as int].0 as int] < a[pairs@[i as int].1 as int]);
                    assert(mn0[sm as int] <= a[sm as int] <= mx0[sm as int]);
                    assert(mn0[lg as int] <= a[lg as int] <= mx0[lg as int]);
                    assert forall|ci: int| 0 <= ci < k implies self.prop.curr_min_area@[ci] <= #[trigger] a[ci]
                        <= self.prop.curr_max_area@[ci] && a[ci] >= old(self).curr_comp_sz@[ci] by {
                        assert(mn0[ci] <= a[ci] <= mx0[ci]);
                    }
                }
                assert forall|c2: int| 0 <= c2 < k implies #[trigger] self.prop.curr_min_area@[c2] >= mn0[c2]
                    && self.prop.curr_max_area@[c2] <= mx0[c2] by {}
                assert forall|c2: int| 0 <= c2 < k implies #[trigger] self.prop.curr_min_area@[c2] >= m_start[c2]
                    && self.prop.curr_max_area@[c2] <= x_start[c2] by {
                    assert(mn0[c2] >= m_start[c2] && mx0[c2] <= x_start[c2]);
                    assert(self.prop.curr_min_area@[c2] >= mn0[c2] && self.prop.curr_max_area@[c2] <= mx0[c2]);
                }
                assert forall|c2: int| 0 <= c2 < k && !#[trigger] in_pairs(pairs@, c2) implies self.prop.curr_min_area@[c2]
                    == m_start[c2] && self.prop.curr_max_area@[c2] == x_start[c2] by {
                    assert(c2 != sm as int && c2 != lg as int);
                    assert(mn0[c2] == m_start[c2] && mx0[c2] == x_start[c2]);
                }
                if !changed {
                    assert(self.prop.curr_min_area@ == mn0);
                    assert(self.prop.curr_max_area@ == mx0);
                }
                if changed {
                    assert(self.prop.curr_min_area@[wit_g] >= mn0[wit_g] && self.prop.curr_max_area@[wit_g] <= mx0[wit_g]);
                }
            }
            i = i + 1;
        }
        proof {
            if changed {
                assert(in_pairs(pairs@, wit_g));
            }
        }
        changed
    }

    /// Some component of a pair has crossed bounds, or a size above its
    /// maximum.
    pub open spec fn sides_broken(&self, pairs: Seq<(usize, usize)>) -> bool {
        exists|ci: int|
            0 <= ci < self.curr_comp_sz@.len() && #[trigger] in_pairs(pairs, ci) && (self.prop.curr_min_area@[ci]
                > self.prop.curr_max_area@[ci] || self.curr_comp_sz@[ci] > self.prop.curr_max_area@[ci])
    }

    /// Narrow the area bounds through the inequality pairs `(smaller,
    /// larger)` to a fixpoint: the smaller side's maximum drops below the
    /// larger's, the larger side's minimum rises above the smaller's.  A pair
    /// side whose bounds cross, or whose size exceeds its maximum, is a
    /// contradiction; one whose bounds meet gets them as its target.  Nothing
    /// is done without bounds, while probing, or without pairs.  Sound:
    /// every choice of areas within the bounds, at least the sizes and
    /// ordered by the pairs, makes the call succeed and stays within the new
    /// bounds.  The result is whether a target was set.
    #[verifier::spinoff_prover]
    #[verifier::rlimit(100)]
    pub fn narrow_inequality_bounds(&mut self, pairs: &Vec<(usize, usize)>) -> (r: Result<bool, ()>)
        requires
            old(self).prop.curr_min_area@.len() == old(self).curr_comp_sz@.len(),
            old(self).prop.curr_max_area@.len() == old(self).curr_comp_sz@.len(),
            old(self).curr_target_area@.len() == old(self).curr_comp_sz@.len(),
            pairs_in(pairs@, old(self).curr_comp_sz@.len() as int),
        ensures
            *final(self) == (Solver {
                curr_target_area: final(self).curr_target_area,
                prop: crate::edge_csp::prop::PropagationState {
                    curr_min_area: final(self).prop.curr_min_area,
                    curr_max_area: final(self).prop.curr_max_area,
                    ..old(self).prop
                },
                ..*old(self)
            }),
            final(self).prop.curr_min_area@.len() == old(self).curr_comp_sz@.len(),
            final(self).prop.curr_max_area@.len() == old(self).curr_comp_sz@.len(),
            final(self).curr_target_area@.len() == old(self).curr_comp_sz@.len(),
            old(self).prop.curr_min_area@.len() == 0 || old(self).in_probing || pairs@.len() == 0 ==> r == Ok::<bool, ()>(false)
                && *final(self) == *old(self),
            forall|ci: int|
                0 <= ci < old(self).curr_comp_sz@.len() ==> #[trigger] final(self).prop.curr_min_area@[ci] >= old(self).prop.curr_min_area@[ci] && final(self).prop.curr_max_area@[ci] <= old(self).prop.curr_max_area@[ci],
            r is Ok ==> final(self).pairs_settled(pairs@) || *final(self) == *old(self),
            r is Err ==> final(self).sides_broken(pairs@),
            r is Ok && !old(self).in_probing ==> forall|ci: int|
                0 <= ci < old(self).curr_comp_sz@.len() && #[trigger] in_pairs(pairs@, ci) ==> final(self).prop.curr_min_area@[ci] <= final(self).prop.curr_max_area@[ci] && old(self).curr_comp_sz@[ci]
                    <= final(self).prop.curr_max_area@[ci] && (final(self).prop.curr_min_area@[ci] == final(self).prop.curr_max_area@[ci] ==> final(self).curr_target_area@[ci] is Some),
            forall|ci: int|
                0 <= ci < old(self).curr_comp_sz@.len() && #[trigger] old(self).curr_target_area@[ci] is Some ==> final(self).curr_target_area@[ci] == old(self).curr_target_area@[ci],
            r is Ok ==> forall|ci: int|
                0 <= ci < old(self).curr_comp_sz@.len() && old(self).curr_target_area@[ci] is None
                    && #[trigger] final(self).curr_target_area@[ci] is Some ==> in_pairs(pairs@, ci)
                    && final(self).curr_target_area@[ci] == Some(final(self).prop.curr_min_area@[ci])
                    && final(self).prop.curr_min_area@[ci] == final(self).prop.curr_max_area@[ci],
            r matches Ok(progress) ==> progress == exists|ci: int|
                0 <= ci < old(self).curr_comp_sz@.len() && old(self).curr_target_area@[ci] is None
                    && #[trigger] final(self).curr_target_area@[ci] is Some,
            forall|a: Seq<int>| #[trigger] old(self).areas_fit(a, pairs@) ==> r is Ok && forall|ci: int|
                0 <= ci < a.len() ==> final(self).prop.curr_min_area@[ci] <= #[trigger] a[ci] <= final(self).prop.curr_max_area@[ci],
    {
        if self.prop.curr_min_area.len() == 0 || self.in_probing || pairs.len() == 0 {
            proof {
                assert forall|a: Seq<int>| #[trigger] old(self).areas_fit(a, pairs@) implies forall|ci: int|
                    0 <= ci < a.len() ==> self.prop.curr_min_area@[ci] <= #[trigger] a[ci] <= self.prop.curr_max_area@[ci] by {
                    assert forall|ci: int| 0 <= ci < a.len() implies self.prop.curr_min_area@[ci] <= #[trigger] a[ci]
                        <= self.prop.curr_max_area@[ci] by {
                        assert(self.prop.curr_min_area@[ci] <= a[ci] <= self.prop.curr_max_area@[ci]);
                    }
                }
            }
            return Ok(false);
        }
        let ghost k = self.curr_comp_sz@.len();
        let mut progress = false;
        loop
            invariant
                *self == (Solver {
                    curr_target_area: self.curr_target_area,
                    prop: crate::edge_csp::prop::PropagationState {
                        curr_min_area: self.prop.curr_min_area,
                        curr_max_area: self.prop.curr_max_area,
                        ..old(self).prop
                    },
                    ..*old(self)
                }),
                k == old(self).curr_comp_sz@.len(),
                !(old(self).prop.curr_min_area@.len() == 0 || old(self).in_probing || pairs@.len() == 0),
                pairs_in(pairs@, k as int),
                self.prop.curr_min_area@.len() == k,
                self.prop.curr_max_area@.len() == k,
                self.curr_target_area@.len() == k,
                forall|ci: int|
                    0 <= ci < k ==> #[trigger] self.prop.curr_min_area@[ci] >= old(self).prop.curr_min_area@[ci]
                        && self.prop.curr_max_area@[ci] <= old(self).prop.curr_max_area@[ci],
                forall|ci: int|
                    0 <= ci < k && #[trigger] old(self).curr_target_area@[ci] is Some ==> self.curr_target_area@[ci] == old(self).curr_target_area@[ci],
                forall|ci: int|
                    0 <= ci < k && old(self).curr_target_area@[ci] is None && #[trigger] self.curr_target_area@[ci] is Some
                        ==> in_pairs(pairs@, ci) && self.curr_target_area@[ci] == Some(self.prop.curr_min_area@[ci])
                        && self.prop.curr_min_area@[ci] == self.prop.curr_max_area@[ci],
                progress == exists|ci: int|
                    0 <= ci < k && old(self).curr_target_area@[ci] is None && #[trigger] self.curr_target_area@[ci] is Some,
                forall|a: Seq<int>| #[trigger] old(self).areas_fit(a, pairs@) ==> forall|ci: int|
                    0 <= ci < a.len() ==> self.prop.curr_min_area@[ci] <= #[trigger] a[ci] <= self.prop.curr_max_area@[ci],
            ensures
                self.prop.curr_min_area@.len() == k,
                self.prop.curr_max_area@.len() == k,
                self.curr_target_area@.len() == k,
                self.pairs_settled(pairs@),
                forall|ci: int|
                    0 <= ci < k && #[trigger] in_pairs(pairs@, ci) ==> self.prop.curr_min_area@[ci] <= self.prop.curr_max_area@[ci]
                        && old(self).curr_comp_sz@[ci] <= self.prop.curr_max_area@[ci] && (self.prop.curr_min_area@[ci]
                        == self.prop.curr_max_area@[ci] ==> self.curr_target_area@[ci] is Some),
            decreases gap_sum(self.prop.curr_min_area@, self.prop.curr_max_area@, k as int),
        {
            let ghost m_start = self.prop.curr_min_area@;
            let ghost x_start = self.prop.curr_max_area@;
            let ghost t_round = self.curr_target_area@;
            proof {
                assert forall|ci: int| 0 <= ci < k implies #[trigger] m_start[ci] >= old(self).prop.curr_min_area@[ci]
                    && x_start[ci] <= old(self).prop.curr_max_area@[ci] by {
                    assert(self.prop.curr_min_area@[ci] >= old(self).prop.curr_min_area@[ci]);
                }
            }
            let changed = self.tighten_round(pairs);
            assert(forall|ci: int| 0 <= ci < k ==> #[trigger] m_start[ci] >= old(self).prop.curr_min_area@[ci]);
            let ghost m_mid = self.prop.curr_min_area@;
            let ghost x_mid = self.prop.curr_max_area@;
            proof {
                assert forall|a: Seq<int>| #[trigger] old(self).areas_fit(a, pairs@) implies forall|c3: int|
                    0 <= c3 < a.len() ==> m_mid[c3] <= #[trigger] a[c3] <= x_mid[c3] by {
                    assert forall|ci: int| 0 <= ci < k implies m_start[ci] <= #[trigger] a[ci] <= x_start[ci] && a[ci]
                        >= old(self).curr_comp_sz@[ci] by {}
                    assert(fits(a, m_start, x_start, old(self).curr_comp_sz@, pairs@));
                }
                assert forall|ci: int| 0 <= ci < k implies #[trigger] m_mid[ci] >= old(self).prop.curr_min_area@[ci]
                    && x_mid[ci] <= old(self).prop.curr_max_area@[ci] by {
                    assert(m_start[ci] >= old(self).prop.curr_min_area@[ci] && x_start[ci] <= old(self).prop.curr_max_area@[ci]);
                    assert(self.prop.curr_min_area@[ci] >= m_start[ci] && self.prop.curr_max_area@[ci] <= x_start[ci]);
                }
            }
            let mut i: usize = 0;
            while i < pairs.len()
                invariant
                    *self == (Solver {
                        curr_target_area: self.curr_target_area,
                        prop: crate::edge_csp::prop::PropagationState {
                            curr_min_area: self.prop.curr_min_area,
                            curr_max_area: self.prop.curr_max_area,
                            ..old(self).prop
                        },
                        ..*old(self)
                    }),
                    k == old(self).curr_comp_sz@.len(),
                    !(old(self).prop.curr_min_area@.len() == 0 || old(self).in_probing || pairs@.len() == 0),
                    pairs_in(pairs@, k as int),
                    self.prop.curr_min_area@ == m_mid,
                    self.prop.curr_max_area@ == x_mid,
                    m_mid.len() == k,
                    x_mid.len() == k,
                    t_round.len() == k,
                    self.curr_target_area@.len() == k,
                    i <= pairs@.len(),
                    forall|j: int|
                        0 <= j < i ==> m_mid[(#[trigger] pairs@[j]).0 as int] <= x_mid[pairs@[j].0 as int] && old(self).curr_comp_sz@[pairs@[j].0 as int] <= x_mid[pairs@[j].0 as int] && m_mid[pairs@[j].1 as int]
                            <= x_mid[pairs@[j].1 as int] && old(self).curr_comp_sz@[pairs@[j].1 as int]
                            <= x_mid[pairs@[j].1 as int] && (m_mid[pairs@[j].0 as int] == x_mid[pairs@[j].0 as int]
                            ==> self.curr_target_area@[pairs@[j].0 as int] is Some) && (m_mid[pairs@[j].1 as int]
                            == x_mid[pairs@[j].1 as int] ==> self.curr_target_area@[pairs@[j].1 as int] is Some),
                    forall|ci: int| 0 <= ci < k && #[trigger] t_round[ci] is Some ==> self.curr_target_area@[ci] == t_round[ci],
                    forall|ci: int|
                        0 <= ci < k ==> #[trigger] m_mid[ci] >= old(self).prop.curr_min_area@[ci] && x_mid[ci] <= old(self).prop.curr_max_area@[ci],
                    forall|a: Seq<int>| #[trigger] old(self).areas_fit(a, pairs@) ==> forall|c3: int|
                        0 <= c3 < a.len() ==> m_mid[c3] <= #[trigger] a[c3] <= x_mid[c3],
                    forall|ci: int|
                        0 <= ci < k && t_round[ci] is None && #[trigger] self.curr_target_area@[ci] is Some ==> in_pairs(
                            pairs@,
                            ci,
                        ) && self.curr_target_area@[ci] == Some(m_mid[ci]) && m_mid[ci] == x_mid[ci],
                    progress == exists|ci: int|
                        0 <= ci < k && old(self).curr_target_area@[ci] is None && #[trigger] self.curr_target_area@[ci] is Some,
                    forall|ci: int|
                        0 <= ci < k && #[trigger] old(self).curr_target_area@[ci] is Some ==> t_round[ci] == old(self).curr_target_area@[ci],
                    forall|ci: int|
                        0 <= ci < k ==> #[trigger] m_start[ci] >= old(self).prop.curr_min_area@[ci] && x_start[ci]
                            <= old(self).prop.curr_max_area@[ci],
                    forall|ci: int| 0 <= ci < k ==> #[trigger] m_mid[ci] >= m_start[ci] && x_mid[ci] <= x_start[ci],
                    changed ==> exists|ci: int|
                        0 <= ci < k && #[trigger] in_pairs(pairs@, ci) && (m_mid[ci] > m_start[ci] || x_mid[ci] < x_start[ci]),
                decreases pairs@.len() - i,
            {
                let (sm, lg) = pairs[i];
                let ghost t0 = self.curr_target_area@;
                let ghost p0 = progress;
                proof {
                    assert(sm < k && lg < k);
                    assert forall|ci: int| 0 <= ci < k && #[trigger] old(self).curr_target_area@[ci] is Some implies t0[ci] == old(self).curr_target_area@[ci] by {
                        assert(t_round[ci] is Some);
                    }
                }
                let mut side: usize = 0;
                while side < 2
                    invariant
                        *self == (Solver {
                            curr_target_area: self.curr_target_area,
                            prop: crate::edge_csp::prop::PropagationState {
                                curr_min_area: self.prop.curr_min_area,
                                curr_max_area: self.prop.curr_max_area,
                                ..old(self).prop
                            },
                            ..*old(self)
                        }),
                        k == old(self).curr_comp_sz@.len(),
                        !(old(self).prop.curr_min_area@.len() == 0 || old(self).in_probing || pairs@.len() == 0),
                        pairs_in(pairs@, k as int),
                        forall|a: Seq<int>| #[trigger] old(self).areas_fit(a, pairs@) ==> forall|c3: int|
                            0 <= c3 < a.len() ==> m_mid[c3] <= #[trigger] a[c3] <= x_mid[c3],
                        forall|ci: int|
                            0 <= ci < k ==> #[trigger] m_mid[ci] >= old(self).prop.curr_min_area@[ci] && x_mid[ci] <= old(self).prop.curr_max_area@[ci],
                        forall|ci: int|
                            0 <= ci < k && #[trigger] old(self).curr_target_area@[ci] is Some ==> t0[ci] == old(self).curr_target_area@[ci],
                        sm < k,
                        lg < k,
                        i < pairs@.len(),
                        pairs@[i as int] == (sm, lg),
                        self.prop.curr_min_area@ == m_mid,
                        self.prop.curr_max_area@ == x_mid,
                        m_mid.len() == k,
                        x_mid.len() == k,
                        t0.len() == k,
                        self.curr_target_area@.len() == k,
                        side <= 2,
                        side > 0 ==> m_mid[sm as int] <= x_mid[sm as int] && old(self).curr_comp_sz@[sm as int] <= x_mid[sm as int]
                            && (m_mid[sm as int] == x_mid[sm as int] ==> self.curr_target_area@[sm as int] is Some),
                        side > 1 ==> m_mid[lg as int] <= x_mid[lg as int] && old(self).curr_comp_sz@[lg as int] <= x_mid[lg as int]
                            && (m_mid[lg as int] == x_mid[lg as int] ==> self.curr_target_area@[lg as int] is Some),
                        forall|ci: int|
                            0 <= ci < k ==> #[trigger] self.curr_target_area@[ci] == t0[ci] || ((ci == sm || ci == lg) && t0[ci]
                                is None && self.curr_target_area@[ci] == Some(m_mid[ci]) && m_mid[ci] == x_mid[ci]),
                        progress == (p0 || exists|ci: int|
                            0 <= ci < k && #[trigger] self.curr_target_area@[ci] != t0[ci]),
                        forall|ci: int| 0 <= ci < k ==> #[trigger] m_mid[ci] >= m_start[ci] && x_mid[ci] <= x_start[ci],
                        changed ==> exists|ci: int|
                                0 <= ci < k && #[trigger] in_pairs(pairs@, ci) && (m_mid[ci] > m_start[ci] || x_mid[ci] < x_start[ci]),
                    decreases 2 - side,
                {
                    let ci = if side == 0 {
                        sm
                    } else {
                        lg
                    };
                    if self.prop.curr_min_area[ci] > self.prop.curr_max_area[ci] || self.curr_comp_sz[ci]
                        > self.prop.curr_max_area[ci] {
                        proof {
                            assert(pairs@[i as int] == (sm, lg));
                            assert(in_pairs(pairs@, ci as int));
                            assert forall|a: Seq<int>| #[trigger] old(self).areas_fit(a, pairs@) implies false by {
                                assert(m_mid[ci as int] <= a[ci as int] <= x_mid[ci as int]);
                                assert(a[ci as int] >= old(self).curr_comp_sz@[ci as int]);
                            }
                        }
                        return Err(());
                    }
                    if self.prop.curr_min_area[ci] == self.prop.curr_max_area[ci] && self.curr_target_area[ci].is_none() {
                        let ghost tb = self.curr_target_area@;
                        self.curr_target_area.set(ci, Some(self.prop.curr_min_area[ci]));
                        progress = true;
                        proof {
                            assert(self.curr_target_area@[ci as int] != t0[ci as int]);
                            assert forall|c2: int| 0 <= c2 < k implies #[trigger] self.curr_target_area@[c2] == t0[c2] || ((c2
                                == sm || c2 == lg) && t0[c2] is None && self.curr_target_area@[c2] == Some(m_mid[c2]) && m_mid[c2]
                                == x_mid[c2]) by {
                                if c2 != ci as int {
                                    assert(self.curr_target_area@[c2] == tb[c2]);
                                }
                            }
                        }
                    }
                    side = side + 1;
                }
                proof {
                    assert(in_pairs(pairs@, sm as int));
                    assert(in_pairs(pairs@, lg as int));
                    if !p0 && progress {
                        let ci = choose|ci: int| 0 <= ci < k && #[trigger] self.curr_target_area@[ci] != t0[ci];
                        assert(t0[ci] is None);
                        if old(self).curr_target_area@[ci] is Some {
                            assert(t_round[ci] == old(self).curr_target_area@[ci]);
                            assert(t0[ci] == t_round[ci]);
                        }
                        assert(self.curr_target_area@[ci] is Some);
                    }
                    if p0 {
                        let ci = choose|ci: int|
                            0 <= ci < k && old(self).curr_target_area@[ci] is None && #[trigger] t0[ci] is Some;
                        assert(self.curr_target_area@[ci] is Some);
                    }
                    if !progress {
                        assert forall|ci: int|
                            0 <= ci < k && old(self).curr_target_area@[ci] is None implies !(#[trigger] self.curr_target_area@[ci]
                            is Some) by {
                            assert(self.curr_target_area@[ci] == t0[ci]);
                        }
                    }
                    assert forall|j: int|
                        0 <= j < i + 1 implies m_mid[(#[trigger] pairs@[j]).0 as int] <= x_mid[pairs@[j].0 as int] && old(self).curr_comp_sz@[pairs@[j].0 as int] <= x_mid[pairs@[j].0 as int] && m_mid[pairs@[j].1 as int]
                        <= x_mid[pairs@[j].1 as int] && old(self).curr_comp_sz@[pairs@[j].1 as int]
                        <= x_mid[pairs@[j].1 as int] && (m_mid[pairs@[j].0 as int] == x_mid[pairs@[j].0 as int]
                        ==> self.curr_target_area@[pairs@[j].0 as int] is Some) && (m_mid[pairs@[j].1 as int]
                        == x_mid[pairs@[j].1 as int] ==> self.curr_target_area@[pairs@[j].1 as int] is Some) by {
                        if j < i {
                            let a0 = pairs@[j].0 as int;
                            let a1 = pairs@[j].1 as int;
                            if t0[a0] is Some {
                                assert(self.curr_target_area@[a0] is Some);
                            }
                            if t0[a1] is Some {
                                assert(self.curr_target_area@[a1] is Some);
                            }
                        }
                    }
                }
                i = i + 1;
            }
            proof {
                assert forall|ci: int| 0 <= ci < k && #[trigger] in_pairs(pairs@, ci) implies m_mid[ci] <= x_mid[ci] && old(self).curr_comp_sz@[ci] <= x_mid[ci] && (m_mid[ci] == x_mid[ci] ==> self.curr_target_area@[ci] is Some) by {
                    let j = choose|j: int| 0 <= j < pairs@.len() && ((#[trigger] pairs@[j]).0 == ci || pairs@[j].1 == ci);
                    assert(m_mid[pairs@[j].0 as int] <= x_mid[pairs@[j].0 as int]);
                }
                assert forall|ci: int|
                    0 <= ci < k && old(self).curr_target_area@[ci] is None && #[trigger] self.curr_target_area@[ci] is Some
                        implies in_pairs(pairs@, ci) && self.curr_target_area@[ci] == Some(self.prop.curr_min_area@[ci])
                        && self.prop.curr_min_area@[ci] == self.prop.curr_max_area@[ci] by {
                    if t_round[ci] is Some {
                        assert(self.curr_target_area@[ci] == t_round[ci]);
                        assert(in_pairs(pairs@, ci));
                        assert(m_start[ci] <= m_mid[ci]);
                        assert(x_mid[ci] <= x_start[ci]);
                        assert(m_mid[ci] <= x_mid[ci]);
                    }
                }
                assert forall|ci: int|
                    0 <= ci < k && #[trigger] old(self).curr_target_area@[ci] is Some implies self.curr_target_area@[ci] == old(self).curr_target_area@[ci] by {
                    assert(t_round[ci] is Some);
                }
                assert forall|ci: int| 0 <= ci < k implies #[trigger] self.prop.curr_min_area@[ci] >= old(self).prop.curr_min_area@[ci]
                    && self.prop.curr_max_area@[ci] <= old(self).prop.curr_max_area@[ci] by {
                    assert(m_mid[ci] >= old(self).prop.curr_min_area@[ci] && x_mid[ci] <= old(self).prop.curr_max_area@[ci]);
                }
                lemma_gap_mono(m_start, x_start, m_mid, x_mid, k as int);
                if changed {
                    let ci = choose|ci: int|
                        0 <= ci < k && #[trigger] in_pairs(pairs@, ci) && (m_mid[ci] > m_start[ci] || x_mid[ci] < x_start[ci]);
                    assert(m_mid[ci] <= x_mid[ci]);
                    assert(0 <= ci < k && (m_mid[ci] > m_start[ci] || x_mid[ci] < x_start[ci]) && m_mid[ci] <= x_mid[ci]);
                }
            }
            if !changed {
                proof {
                    assert(self.prop.curr_min_area@ == m_start && self.prop.curr_max_area@ == x_start);
                }
                break;
            }
        }
        Ok(progress)
    }

    /// The components in play read the cell lists that growth potential
    /// walks from: one duplicate-free list of existing cells per component.
    pub open spec fn pot_ready(&self) -> bool {
        let k = self.curr_comp_sz@.len();
        &&& self.comp_cells@.len() == k
        &&& forall|ci: int| 0 <= ci < k ==> (#[trigger] self.comp_cells@[ci])@.no_duplicates()
        &&& forall|ci: int, j: int|
            0 <= ci < k && 0 <= j < self.comp_cells@[ci]@.len() ==> #[trigger] self.comp_cells@[ci]@[j]
                < self.grid.n_cells()
    }

    /// Every edge clue names an edge of the grid.
    pub open spec fn clues_fit(&self) -> bool {
        forall|i: int| 0 <= i < self.edge_clues@.len() ==> (#[trigger] self.edge_clues@[i]).edge < self.grid.n_edges()
    }

    /// What `growth_potential` gives for component `ci`.
    pub open spec fn potential(&self, ci: int) -> int {
        match self.curr_target_area@[ci] {
            Some(t) => t as int,
            None => min_int(self.pot_cells(self.comp_cells@[ci]@).len() as int, self.prop.curr_max_area@[ci] as int),
        }
    }

    /// The ordered pair `(smaller, larger)` of components that inequality
    /// clue edge `e` relates: only a cut edge between existing cells of two
    /// different components below `num`.
    pub open spec fn ineq_pair(&self, e: EdgeId, smaller_first: bool, num: int) -> Option<(usize, usize)> {
        let (a, b) = self.grid.spec_edge_cells(e as int);
        let ci1 = self.curr_comp_id@[a];
        let ci2 = self.curr_comp_id@[b];
        if self.edges@[e as int] != EdgeState::Cut || !self.grid.cell_exists@[a] || !self.grid.cell_exists@[b] || ci1
            == ci2 || ci1 >= num || ci2 >= num {
            None
        } else if smaller_first {
            Some((ci1, ci2))
        } else {
            Some((ci2, ci1))
        }
    }

    /// The pairs of the first `k` edge clues, in order.
    pub open spec fn ineq_pairs(&self, num: int, k: int) -> Seq<(usize, usize)>
        decreases k,
    {
        if k <= 0 {
            Seq::empty()
        } else {
            let p = self.ineq_pairs(num, k - 1);
            let cl = self.edge_clues@[k - 1];
            match cl.kind {
                EdgeClueKind::Inequality { smaller_first } => match self.ineq_pair(cl.edge, smaller_first, num) {
                    Some(q) => p.push(q),
                    None => p,
                },
                _ => p,
            }
        }
    }

    /// Inequality clue `e` cannot hold any more.  Only a cut edge between
    /// existing cells of two different components counts.  With `s` the
    /// smaller side and `l` the larger: both sealed, `s` must be smaller; a
    /// sealed `l` no larger than `s` fails; a sealed `s` must be below what
    /// `l` can still reach; with `l` sealed, a target of `s` must be below
    /// its size; with neither sealed, the size and the target of `s` must be
    /// below what `l` can reach, and a target of `l` above the size of `s`.
    pub open spec fn ineq_broken(&self, e: EdgeId, smaller_first: bool) -> bool {
        let (a, b) = self.grid.spec_edge_cells(e as int);
        let ci1 = self.curr_comp_id@[a] as int;
        let ci2 = self.curr_comp_id@[b] as int;
        if self.edges@[e as int] != EdgeState::Cut || !self.grid.cell_exists@[a] || !self.grid.cell_exists@[b] || ci1
            == ci2 {
            false
        } else {
            let sc = if smaller_first {
                ci1
            } else {
                ci2
            };
            let lc = if smaller_first {
                ci2
            } else {
                ci1
            };
            let sd = self.spec_sealed(sc);
            let ld = self.spec_sealed(lc);
            let zs = self.curr_comp_sz@[sc] as int;
            let zl = self.curr_comp_sz@[lc] as int;
            if sd && ld {
                zs >= zl
            } else if ld && zl <= zs {
                true
            } else if sd {
                zs >= self.potential(lc)
            } else if ld {
                match self.curr_target_area@[sc] {
                    Some(t) => t >= zl,
                    None => false,
                }
            } else {
                let ml = self.potential(lc);
                ||| zs >= ml
                ||| (match self.curr_target_area@[sc] {
                    Some(t) => t >= ml,
                    None => false,
                })
                ||| (match self.curr_target_area@[lc] {
                    Some(t) => t <= zs,
                    None => false,
                })
            }
        }
    }

    /// Edge clue `i` is an inequality clue that cannot hold any more.
    pub open spec fn clue_broken(&self, i: int) -> bool {
        match self.edge_clues@[i].kind {
            EdgeClueKind::Inequality { smaller_first } => self.ineq_broken(self.edge_clues@[i].edge, smaller_first),
            _ => false,
        }
    }

    /// The component pairs of the inequality clues (see `ineq_pair`).
    fn inequality_pairs(&self, num_comp: usize) -> (pairs: Vec<(usize, usize)>)
        requires
            self.grid.wf(),
            self.edges@.len() == self.grid.n_edges(),
            self.comps_indexed(),
            self.clues_fit(),
        ensures
            pairs@ == self.ineq_pairs(num_comp as int, self.edge_clues@.len() as int),
            pairs_in(pairs@, self.curr_comp_sz@.len() as int),
    {
        let mut pairs: Vec<(usize, usize)> = Vec::new();
        let mut i: usize = 0;
        while i < self.edge_clues.len()
            invariant
                self.grid.wf(),
                self.edges@.len() == self.grid.n_edges(),
                self.comps_indexed(),
                self.clues_fit(),
                i <= self.edge_clues@.len(),
                pairs@ == self.ineq_pairs(num_comp as int, i as int),
                pairs_in(pairs@, self.curr_comp_sz@.len() as int),
            decreases self.edge_clues@.len() - i,
        {
            let cl = self.edge_clues[i];
            proof {
                assert(self.edge_clues@[i as int].edge < self.grid.n_edges());
            }
            match cl.kind {
                EdgeClueKind::Inequality { smaller_first } => {
                    let e = cl.edge;
                    if self.edges[e] == EdgeState::Cut {
                        let (c1, c2) = self.grid.edge_cells(e);
                        if self.grid.cell_exists[c1] && self.grid.cell_exists[c2] {
                            let ci1 = self.curr_comp_id[c1];
                            let ci2 = self.curr_comp_id[c2];
                            if ci1 != ci2 && ci1 < num_comp && ci2 < num_comp {
                                let q = if smaller_first {
                                    (ci1, ci2)
                                } else {
                                    (ci2, ci1)
                                };
                                let ghost p0 = pairs@;
                                pairs.push(q);
                                proof {
                                    assert forall|j: int| 0 <= j < pairs@.len() implies (#[trigger] pairs@[j]).0
                                        < self.curr_comp_sz@.len() && pairs@[j].1 < self.curr_comp_sz@.len() by {
                                        if j < p0.len() {
                                            assert(pairs@[j] == p0[j]);
                                        }
                                    }
                                }
                            }
                        }
                    }
                },
                _ => {},
            }
            i = i + 1;
        }
        pairs
    }

    /// Whether inequality clue `e` cannot hold any more (see `ineq_broken`).
    fn inequality_broken(&self, e: EdgeId, smaller_first: bool) -> (r: bool)
        requires
            self.grid.wf(),
            self.edges@.len() == self.grid.n_edges(),
            e < self.grid.n_edges(),
            self.comps_indexed(),
            self.pot_ready(),
        ensures
            r == self.ineq_broken(e, smaller_first),
    {
        if self.edges[e] != EdgeState::Cut {
            return false;
        }
        let (c1, c2) = self.grid.edge_cells(e);
        if !self.grid.cell_exists[c1] || !self.grid.cell_exists[c2] {
            return false;
        }
        let ci1 = self.curr_comp_id[c1];
        let ci2 = self.curr_comp_id[c2];
        if ci1 == ci2 {
            return false;
        }
        let (sc, lc) = if smaller_first {
            (ci1, ci2)
        } else {
            (ci2, ci1)
        };
        let sd = self.is_sealed(sc);
        let ld = self.is_sealed(lc);
        let zs = self.curr_comp_sz[sc];
        let zl = self.curr_comp_sz[lc];
        if sd && ld {
            zs >= zl
        } else if ld && zl <= zs {
            true
        } else if sd {
            zs >= self.growth_potential(lc)
        } else if ld {
            match self.curr_target_area[sc] {
                Some(t) => t >= zl,
                None => false,
            }
        } else {
            let ml = self.growth_potential(lc);
            if zs >= ml {
                return true;
            }
            if let Some(t) = self.curr_target_area[sc] {
                if t >= ml {
                    return true;
                }
            }
            if let Some(t) = self.curr_target_area[lc] {
                if t <= zs {
                    return true;
                }
            }
            false
        }
    }

    /// Whether some edge clue is broken (see `clue_broken`).
    fn any_clue_broken(&self) -> (r: bool)
        requires
            self.grid.wf(),
            self.edges@.len() == self.grid.n_edges(),
            self.comps_indexed(),
            self.pot_ready(),
            self.clues_fit(),
        ensures
            r == exists|i: int| 0 <= i < self.edge_clues@.len() && #[trigger] self.clue_broken(i),
    {
        let mut i: usize = 0;
        while i < self.edge_clues.len()
            invariant
                self.grid.wf(),
                self.edges@.len() == self.grid.n_edges(),
                self.comps_indexed(),
                self.pot_ready(),
                self.clues_fit(),
                i <= self.edge_clues@.len(),
                forall|j: int| 0 <= j < i ==> !#[trigger] self.clue_broken(j),
            decreases self.edge_clues@.len() - i,
        {
            let cl = self.edge_clues[i];
            proof {
                assert(self.edge_clues@[i as int].edge < self.grid.n_edges());
            }
            match cl.kind {
                EdgeClueKind::Inequality { smaller_first } => {
                    if self.inequality_broken(cl.edge, smaller_first) {
                        proof {
                            assert(self.clue_broken(i as int));
                        }
                        return true;
                    }
                },
                _ => {},
            }
            i = i + 1;
        }
        false
    }

    /// Inequality clue propagation: the area bounds of the components are
    /// narrowed through the clue pairs (`narrow_inequality_bounds`), then
    /// every inequality clue is checked against sizes, seals, targets and
    /// growth potential (`ineq_broken`).  It fails exactly when the
    /// narrowing fails or some clue is broken under the narrowed bounds;
    /// otherwise the result is whether a target was set.
    pub fn propagate_inequality_clues(&mut self, num_comp: usize) -> (r: Result<bool, ()>)
        requires
            old(self).grid.wf(),
            old(self).edges@.len() == old(self).grid.n_edges(),
            old(self).comps_indexed(),
            old(self).pot_ready(),
            old(self).clues_fit(),
        ensures
            ({
                let pairs = old(self).ineq_pairs(num_comp as int, old(self).edge_clues@.len() as int);
                let active = !(old(self).prop.curr_min_area@.len() == 0 || old(self).in_probing || pairs.len() == 0);
                &&& *final(self) == (Solver {
                    curr_target_area: final(self).curr_target_area,
                    prop: crate::edge_csp::prop::PropagationState {
                        curr_min_area: final(self).prop.curr_min_area,
                        curr_max_area: final(self).prop.curr_max_area,
                        ..old(self).prop
                    },
                    ..*old(self)
                })
                &&& final(self).comps_indexed()
                &&& !active ==> *final(self) == *old(self)
                &&& (r is Err <==> (active && final(self).sides_broken(pairs)) || exists|i: int|
                    0 <= i < final(self).edge_clues@.len() && #[trigger] final(self).clue_broken(i))
                &&& forall|ci: int|
                    0 <= ci < old(self).curr_comp_sz@.len() ==> #[trigger] final(self).prop.curr_min_area@[ci]
                        >= old(self).prop.curr_min_area@[ci] && final(self).prop.curr_max_area@[ci]
                        <= old(self).prop.curr_max_area@[ci]
                &&& forall|ci: int|
                    0 <= ci < old(self).curr_comp_sz@.len() && #[trigger] old(self).curr_target_area@[ci] is Some
                        ==> final(self).curr_target_area@[ci] == old(self).curr_target_area@[ci]
                &&& r is Ok ==> forall|ci: int|
                    0 <= ci < old(self).curr_comp_sz@.len() && old(self).curr_target_area@[ci] is None
                        && #[trigger] final(self).curr_target_area@[ci] is Some ==> in_pairs(pairs, ci)
                        && final(self).curr_target_area@[ci] == Some(final(self).prop.curr_min_area@[ci])
                        && final(self).prop.curr_min_area@[ci] == final(self).prop.curr_max_area@[ci]
                &&& (r matches Ok(progress) ==> progress == exists|ci: int|
                    0 <= ci < old(self).curr_comp_sz@.len() && old(self).curr_target_area@[ci] is None
                        && #[trigger] final(self).curr_target_area@[ci] is Some)
                &&& forall|a: Seq<int>| #[trigger] old(self).areas_fit(a, pairs) ==> !(active && final(self).sides_broken(
                    pairs,
                )) && forall|ci: int|
                    0 <= ci < a.len() ==> final(self).prop.curr_min_area@[ci] <= #[trigger] a[ci]
                        <= final(self).prop.curr_max_area@[ci]
            }),
    {
        let pairs = self.inequality_pairs(num_comp);
        let ghost s0 = *self;
        let progress = match self.narrow_inequality_bounds(&pairs) {
            Ok(p) => p,
            Err(()) => {
                return Err(());
            },
        };
        if self.any_clue_broken() {
            return Err(());
        }
        Ok(progress)
    }
}

} // verus!
