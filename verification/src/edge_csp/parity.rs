//! Vertex parity for two-piece boards.  With exactly two regions the four
//! cells around an interior grid point are two-coloured, and a cycle of
//! two colours changes colour an even number of times: the cut spokes at
//! every interior grid point with four existing cells are even in number.

use vstd::prelude::*;
use crate::edge_csp::grid::{lemma_corner_adjacent, lemma_wf_bounds};
use crate::edge_csp::palisade::{completes, decided_some};
use crate::edge_csp::prop::count_in_state;
use crate::edge_csp::solver::Solver;
use crate::edge_csp::types::{EdgeId, EdgeState};

verus! {

/// Counting the cuts of a completion `sol` over `es`: the decided cuts of
/// `edges`, plus the undecided positions when they all are the edge `u`
/// and `sol` cuts it.
proof fn lemma_cut_split(edges: Seq<EdgeState>, sol: Seq<EdgeState>, es: Seq<EdgeId>, u: EdgeId)
    requires
        completes(edges, sol),
        forall|i: int| 0 <= i < es.len() ==> (#[trigger] es[i]) < edges.len(),
        forall|i: int| 0 <= i < es.len() && edges[(#[trigger] es[i]) as int] == EdgeState::Unknown ==> es[i] == u,
    ensures
        count_in_state(sol, es, EdgeState::Cut) == count_in_state(edges, es, EdgeState::Cut) + if sol[u as int]
            == EdgeState::Cut {
            count_in_state(edges, es, EdgeState::Unknown)
        } else {
            0
        },
    decreases es.len(),
{
    if es.len() > 0 {
        let x = es.last();
        assert(es[es.len() - 1] == x);
        let init = es.drop_last();
        assert forall|i: int| 0 <= i < init.len() implies (#[trigger] init[i]) < edges.len() by {
            assert(init[i] == es[i]);
        }
        assert forall|i: int| 0 <= i < init.len() && edges[(#[trigger] init[i]) as int] == EdgeState::Unknown implies init[i]
            == u by {
            assert(init[i] == es[i]);
        }
        lemma_cut_split(edges, sol, init, u);
        assert(sol[x as int] != EdgeState::Unknown);
    }
}

/// No undecided edge among `es` exactly when every one of them is decided.
proof fn lemma_count_zero(edges: Seq<EdgeState>, es: Seq<EdgeId>)
    ensures
        (count_in_state(edges, es, EdgeState::Unknown) == 0) == (forall|i: int|
            0 <= i < es.len() ==> edges[#[trigger] es[i] as int] != EdgeState::Unknown),
        count_in_state(edges, es, EdgeState::Unknown) >= 0,
    decreases es.len(),
{
    if es.len() > 0 {
        lemma_count_zero(edges, es.drop_last());
        assert forall|i: int| 0 <= i < es.len() - 1 implies es.drop_last()[i] == es[i] by {}
        if forall|i: int| 0 <= i < es.len() ==> edges[#[trigger] es[i] as int] != EdgeState::Unknown {
            assert forall|i: int| 0 <= i < es.drop_last().len() implies edges[#[trigger] es.drop_last()[i] as int] != EdgeState::Unknown by {
                assert(es.drop_last()[i] == es[i]);
            }
        }
        if count_in_state(edges, es, EdgeState::Unknown) == 0 {
            assert forall|i: int| 0 <= i < es.len() implies edges[#[trigger] es[i] as int] != EdgeState::Unknown by {
                if i < es.len() - 1 {
                    assert(es.drop_last()[i] == es[i]);
                }
            }
        }
    }
}

/// Counts over `es` depend only on the states of the edges in `es`.
proof fn lemma_count_frame(a: Seq<EdgeState>, b: Seq<EdgeState>, es: Seq<EdgeId>, st: EdgeState)
    requires
        forall|i: int| 0 <= i < es.len() ==> a[#[trigger] es[i] as int] == b[es[i] as int],
    ensures
        count_in_state(a, es, st) == count_in_state(b, es, st),
    decreases es.len(),
{
    if es.len() > 0 {
        assert forall|i: int| 0 <= i < es.drop_last().len() implies a[#[trigger] es.drop_last()[i] as int] == b[es.drop_last()[i] as int] by {
            assert(es.drop_last()[i] == es[i]);
        }
        lemma_count_frame(a, b, es.drop_last(), st);
        assert(es.last() == es[es.len() - 1]);
    }
}

impl Solver {
    /// The four cells around interior grid point `(vr, vc)` all exist.
    pub open spec fn full_point(&self, vr: int, vc: int) -> bool {
        let cs = self.grid.spec_vertex_cells(vr, vc);
        &&& 1 <= vr < self.grid.rows
        &&& 1 <= vc < self.grid.cols
        &&& self.grid.cell_exists@[cs[0].unwrap() as int]
        &&& self.grid.cell_exists@[cs[1].unwrap() as int]
        &&& self.grid.cell_exists@[cs[2].unwrap() as int]
        &&& self.grid.cell_exists@[cs[3].unwrap() as int]
    }

    /// The spokes at interior grid point `(vr, vc)`: top, right, bottom,
    /// left (a cycle around the point).
    pub open spec fn spokes(&self, vr: int, vc: int) -> Seq<EdgeId> {
        let cs = self.grid.spec_vertex_cells(vr, vc);
        seq![
            self.grid.spec_edge_between(cs[0].unwrap() as int, cs[1].unwrap() as int) as usize,
            self.grid.spec_edge_between(cs[1].unwrap() as int, cs[3].unwrap() as int) as usize,
            self.grid.spec_edge_between(cs[2].unwrap() as int, cs[3].unwrap() as int) as usize,
            self.grid.spec_edge_between(cs[0].unwrap() as int, cs[2].unwrap() as int) as usize,
        ]
    }

    /// Every interior grid point with four existing cells has an even
    /// number of cut spokes under `sol` (true of every two-region board).
    pub open spec fn even_spokes(&self, sol: Seq<EdgeState>) -> bool {
        forall|vr: int, vc: int| #[trigger] self.full_point(vr, vc) ==> count_in_state(
            sol,
            self.spokes(vr, vc),
            EdgeState::Cut,
        ) % 2 == 0
    }

    /// Grid point `(vr, vc)` has four existing cells and at most one
    /// undecided spoke under `edges`.
    pub open spec fn active(&self, edges: Seq<EdgeState>, vr: int, vc: int) -> bool {
        self.full_point(vr, vc) && count_in_state(edges, self.spokes(vr, vc), EdgeState::Unknown) <= 1
    }

    /// The four spokes at `(vr, vc)` are edges of the grid.
    pub open spec fn spokes_in_range(&self, vr: int, vc: int) -> bool {
        forall|i: int| 0 <= i < 4 ==> #[trigger] self.spokes(vr, vc)[i] < self.grid.n_edges()
    }

    /// No grid point before `(vr, vc)` in row order is active.
    pub open spec fn none_active_before(&self, edges: Seq<EdgeState>, vr: int, vc: int) -> bool {
        forall|vr2: int, vc2: int| (vr2 < vr || (vr2 == vr && vc2 < vc)) ==> !#[trigger] self.active(edges, vr2, vc2)
    }

    /// `(vr, vc)` is the first active grid point in row order.
    pub open spec fn first_active(&self, edges: Seq<EdgeState>, vr: int, vc: int) -> bool {
        self.active(edges, vr, vc) && self.none_active_before(edges, vr, vc)
    }

    proof fn lemma_none_active_step(&self, edges: Seq<EdgeState>, vr: int, vc: int)
        ensures
            self.none_active_before(edges, vr, vc) && !self.active(edges, vr, vc) ==> self.none_active_before(edges, vr, vc + 1),
    {
        if self.none_active_before(edges, vr, vc) && !self.active(edges, vr, vc) {
            assert forall|vr2: int, vc2: int| (vr2 < vr || (vr2 == vr && vc2 < vc + 1)) implies !#[trigger] self.active(
                edges,
                vr2,
                vc2,
            ) by {
                if !(vr2 == vr && vc2 == vc) {
                    assert(vr2 < vr || (vr2 == vr && vc2 < vc));
                }
            }
        }
    }

    proof fn lemma_none_active_row(&self, edges: Seq<EdgeState>, vr: int)
        ensures
            self.none_active_before(edges, vr, self.grid.cols as int) ==> self.none_active_before(edges, vr + 1, 1),
    {
        if self.none_active_before(edges, vr, self.grid.cols as int) {
            assert forall|vr2: int, vc2: int| (vr2 < vr + 1 || (vr2 == vr + 1 && vc2 < 1)) implies !#[trigger] self.active(
                edges,
                vr2,
                vc2,
            ) by {
                if vr2 == vr && vc2 >= self.grid.cols {
                    assert(!self.full_point(vr2, vc2));
                } else if vr2 == vr + 1 {
                    assert(!self.full_point(vr2, vc2));
                }
            }
        }
    }

    /// Two-piece vertex parity, grid point by grid point in row order: at
    /// an interior point with four existing cells, three decided spokes
    /// force the fourth so that the cut count is even, and four decided
    /// spokes with an odd cut count are a contradiction.  Sound: every
    /// completion of the edges with even cut spokes everywhere makes the
    /// call succeed and still completes the edges it leaves.  The result is
    /// whether any edge was decided.
    #[verifier::spinoff_prover]
    #[verifier::rlimit(80)]
    pub fn propagate_two_piece_vertex_parity(&mut self) -> (r: Result<bool, ()>)
        requires
            old(self).trail_ok(),
        ensures
            final(self).trail_ok(),
            final(self).same_context(&*old(self)),
            final(self).pre_marked == old(self).pre_marked,
            final(self).is_pre_cut == old(self).is_pre_cut,
            forall|e: int|
                0 <= e < old(self).edges@.len() && old(self).edges@[e] != EdgeState::Unknown
                    ==> #[trigger] final(self).edges@[e] == old(self).edges@[e],
            r matches Ok(progress) ==> progress == (final(self).edges@ != old(self).edges@),
            forall|sol: Seq<EdgeState>|
                completes(old(self).edges@, sol) && #[trigger] old(self).even_spokes(sol) ==> r is Ok && completes(
                    final(self).edges@,
                    sol,
                ),
            r is Ok ==> forall|vr: int, vc: int|
                #[trigger] old(self).first_active(old(self).edges@, vr, vc) ==> count_in_state(
                    final(self).edges@,
                    old(self).spokes(vr, vc),
                    EdgeState::Unknown,
                ) == 0,
    {
        proof {
            lemma_wf_bounds(self.grid);
        }
        let rows = self.grid.rows;
        let cols = self.grid.cols;
        let mut progress = false;
        let mut vr: usize = 1;
        while vr < rows
            invariant
                self.trail_ok(),
                self.same_context(&*old(self)),
                self.pre_marked == old(self).pre_marked,
                self.is_pre_cut == old(self).is_pre_cut,
                rows == self.grid.rows,
                cols == self.grid.cols,
                1 <= vr,
                self.edges@.len() == old(self).edges@.len(),
                forall|e: int|
                    0 <= e < old(self).edges@.len() && old(self).edges@[e] != EdgeState::Unknown
                        ==> #[trigger] self.edges@[e] == old(self).edges@[e],
                progress == decided_some(old(self).edges@, self.edges@),
                forall|sol: Seq<EdgeState>|
                    completes(old(self).edges@, sol) && #[trigger] old(self).even_spokes(sol) ==> completes(
                        self.edges@,
                        sol,
                    ),
                old(self).grid == self.grid,
                old(self).none_active_before(old(self).edges@, vr as int, 1) ==> self.edges@ == old(self).edges@,
                forall|vr2: int, vc2: int|
                    vr2 < vr && #[trigger] old(self).first_active(old(self).edges@, vr2, vc2) ==> count_in_state(
                        self.edges@,
                        old(self).spokes(vr2, vc2),
                        EdgeState::Unknown,
                    ) == 0 && old(self).spokes_in_range(vr2, vc2),
            decreases rows - vr,
        {
            let mut vc: usize = 1;
            while vc < cols
                invariant
                    self.trail_ok(),
                    self.same_context(&*old(self)),
                    self.pre_marked == old(self).pre_marked,
                    self.is_pre_cut == old(self).is_pre_cut,
                    rows == self.grid.rows,
                    cols == self.grid.cols,
                    1 <= vr < rows,
                    1 <= vc,
                    self.edges@.len() == old(self).edges@.len(),
                    forall|e: int|
                        0 <= e < old(self).edges@.len() && old(self).edges@[e] != EdgeState::Unknown
                            ==> #[trigger] self.edges@[e] == old(self).edges@[e],
                    progress == decided_some(old(self).edges@, self.edges@),
                    forall|sol: Seq<EdgeState>|
                        completes(old(self).edges@, sol) && #[trigger] old(self).even_spokes(sol) ==> completes(
                            self.edges@,
                            sol,
                        ),
                    old(self).grid == self.grid,
                    old(self).none_active_before(old(self).edges@, vr as int, vc as int) ==> self.edges@ == old(self).edges@,
                    forall|vr2: int, vc2: int|
                        (vr2 < vr || (vr2 == vr && vc2 < vc)) && #[trigger] old(self).first_active(old(self).edges@, vr2, vc2)
                            ==> count_in_state(self.edges@, old(self).spokes(vr2, vc2), EdgeState::Unknown) == 0
                            && old(self).spokes_in_range(vr2, vc2),
                decreases cols - vc,
            {
                proof {
                    lemma_wf_bounds(self.grid);
                }
                let cs = self.grid.vertex_cells(vr, vc);
                let ghost gi = vr as int;
                let ghost gj = vc as int;
                let (a, b, c, d) = match (cs[0], cs[1], cs[2], cs[3]) {
                    (Some(a), Some(b), Some(c), Some(d)) => (a, b, c, d),
                    _ => {
                        proof {
                            assert(false);
                        }
                        return Err(());
                    },
                };
                if !(self.grid.cell_exists[a] && self.grid.cell_exists[b] && self.grid.cell_exists[c]
                    && self.grid.cell_exists[d]) {
                    proof {
                        assert(!old(self).full_point(gi, gj));
                        old(self).lemma_none_active_step(old(self).edges@, gi, gj);
                        assert forall|vr2: int, vc2: int|
                            (vr2 < vr || (vr2 == vr && vc2 < vc + 1)) && #[trigger] old(self).first_active(old(self).edges@, vr2, vc2)
                                implies count_in_state(self.edges@, old(self).spokes(vr2, vc2), EdgeState::Unknown) == 0
                                && old(self).spokes_in_range(vr2, vc2) by {
                            if vr2 == vr && vc2 == vc {
                                assert(old(self).full_point(vr2, vc2));
                            }
                        }
                    }
                    vc = vc + 1;
                    continue;
                }
                proof {
                    lemma_corner_adjacent(self.grid, gi, gj, 0, 1);
                    lemma_corner_adjacent(self.grid, gi, gj, 1, 3);
                    lemma_corner_adjacent(self.grid, gi, gj, 2, 3);
                    lemma_corner_adjacent(self.grid, gi, gj, 0, 2);
                }
                let e0 = match self.grid.edge_between(a, b) {
                    Some(e) => e,
                    None => {
                        return Err(());
                    },
                };
                let e1 = match self.grid.edge_between(b, d) {
                    Some(e) => e,
                    None => {
                        return Err(());
                    },
                };
                let e2 = match self.grid.edge_between(c, d) {
                    Some(e) => e,
                    None => {
                        return Err(());
                    },
                };
                let e3 = match self.grid.edge_between(a, c) {
                    Some(e) => e,
                    None => {
                        return Err(());
                    },
                };
                let spokes = vec![e0, e1, e2, e3];
                proof {
                    assert(spokes@ == old(self).spokes(gi, gj));
                    assert(old(self).full_point(gi, gj));
                }
                let (n_cut, unk) = self.count_corner_edges(&spokes);
                let ghost cur = self.edges@;
                let ghost sp = old(self).spokes(gi, gj);
                proof {
                    old(self).lemma_none_active_step(old(self).edges@, gi, gj);
                }
                if unk.len() == 0 {
                    if n_cut % 2 == 1 {
                        proof {
                            assert forall|sol: Seq<EdgeState>|
                                completes(old(self).edges@, sol) && #[trigger] old(self).even_spokes(sol) implies false by {
                                assert(completes(cur, sol));
                                assert forall|i: int|
                                    0 <= i < spokes@.len() && cur[(#[trigger] spokes@[i]) as int] == EdgeState::Unknown implies spokes@[i]
                                    == 0usize by {
                                    assert(spokes@.contains(spokes@[i]));
                                    assert(unk@.contains(spokes@[i]));
                                }
                                lemma_cut_split(cur, sol, spokes@, 0);
                                assert(old(self).full_point(gi, gj));
                            }
                        }
                        return Err(());
                    }
                } else if unk.len() == 1 {
                    let u = unk[0];
                    let want = if n_cut % 2 == 1 {
                        EdgeState::Cut
                    } else {
                        EdgeState::Uncut
                    };
                    let ok = self.set_edge(u, want);
                    proof {
                        assert(ok);
                        assert(self.edges@ == cur.update(u as int, want));
                        assert(old(self).edges@[u as int] == EdgeState::Unknown) by {
                            if old(self).edges@[u as int] != EdgeState::Unknown {
                                assert(cur[u as int] == old(self).edges@[u as int]);
                            }
                        }
                        assert(decided_some(old(self).edges@, self.edges@)) by {
                            assert(self.edges@[u as int] == want);
                        }
                        assert forall|sol: Seq<EdgeState>|
                            completes(old(self).edges@, sol) && #[trigger] old(self).even_spokes(sol) implies completes(
                            self.edges@,
                            sol,
                        ) by {
                            assert(completes(cur, sol));
                            assert forall|i: int|
                                0 <= i < spokes@.len() && cur[(#[trigger] spokes@[i]) as int] == EdgeState::Unknown implies spokes@[i]
                                == u by {
                                assert(spokes@.contains(spokes@[i]));
                                assert(unk@.contains(spokes@[i]));
                                let q = choose|q: int| 0 <= q < unk@.len() && unk@[q] == spokes@[i];
                                assert(q == 0);
                            }
                            lemma_cut_split(cur, sol, spokes@, u);
                            assert(old(self).full_point(gi, gj));
                            assert(sol[u as int] != EdgeState::Unknown);
                            assert(sol[u as int] == want);
                            assert forall|e: int|
                                0 <= e < sol.len() && self.edges@[e] != EdgeState::Unknown implies #[trigger] sol[e]
                                == self.edges@[e] by {
                                if e != u as int {
                                    assert(self.edges@[e] == cur[e]);
                                }
                            }
                        }
                    }
                    progress = true;
                }
                proof {
                    assert(unk@.len() >= 2 ==> self.edges@ == cur);
                    assert(unk@.len() == 1 ==> self.edges@ == cur.update(unk@[0] as int, self.edges@[unk@[0] as int])
                        && self.edges@[unk@[0] as int] != EdgeState::Unknown);
                    assert(unk@.len() == 0 ==> self.edges@ == cur);
                    if old(self).none_active_before(old(self).edges@, gi, gj + 1) {
                        assert(!old(self).active(old(self).edges@, gi, gj));
                        assert forall|vr2: int, vc2: int| (vr2 < gi || (vr2 == gi && vc2 < gj)) implies !#[trigger] old(self).active(
                            old(self).edges@,
                            vr2,
                            vc2,
                        ) by {
                            assert(vr2 < gi || (vr2 == gi && vc2 < gj + 1));
                        }
                        assert(cur == old(self).edges@);
                        assert(unk@.len() >= 2);
                    }
                    assert forall|vr2: int, vc2: int|
                        (vr2 < vr || (vr2 == vr && vc2 < vc + 1)) && #[trigger] old(self).first_active(old(self).edges@, vr2, vc2)
                            implies count_in_state(self.edges@, old(self).spokes(vr2, vc2), EdgeState::Unknown) == 0
                            && old(self).spokes_in_range(vr2, vc2) by {
                        let sp2 = old(self).spokes(vr2, vc2);
                        if vr2 == vr && vc2 == vc {
                            assert(sp2 == spokes@);
                            assert(old(self).spokes_in_range(vr2, vc2));
                            assert(old(self).none_active_before(old(self).edges@, gi, gj));
                            assert(cur == old(self).edges@);
                            lemma_count_zero(self.edges@, sp2);
                            assert(unk@.len() <= 1);
                            assert forall|i: int| 0 <= i < sp2.len() implies self.edges@[#[trigger] sp2[i] as int] != EdgeState::Unknown by {
                                let x = sp2[i];
                                assert(spokes@[i] == x);
                                assert(spokes@.contains(x));
                                if cur[x as int] == EdgeState::Unknown {
                                    assert(unk@.contains(x));
                                    let q = choose|q: int| 0 <= q < unk@.len() && unk@[q] == x;
                                    assert(unk@[0] == x);
                                } else if unk@.len() == 1 {
                                    assert(self.edges@[x as int] == cur[x as int] || x == unk@[0]);
                                }
                            }
                        } else {
                            assert(count_in_state(cur, sp2, EdgeState::Unknown) == 0);
                            lemma_count_zero(cur, sp2);
                            assert forall|i: int| 0 <= i < sp2.len() implies cur[#[trigger] sp2[i] as int] == self.edges@[sp2[i] as int] by {
                                let x = sp2[i];
                                assert(x < old(self).grid.n_edges());
                                assert(cur[x as int] != EdgeState::Unknown);
                                if unk@.len() == 1 {
                                    assert(cur[unk@[0] as int] == EdgeState::Unknown);
                                    assert(x != unk@[0]);
                                    assert(self.edges@[x as int] == cur[x as int]);
                                } else {
                                    assert(self.edges@ == cur);
                                }
                            }
                            lemma_count_frame(cur, self.edges@, sp2, EdgeState::Unknown);
                        }
                    }
                }
                vc = vc + 1;
            }
            proof {
                old(self).lemma_none_active_row(old(self).edges@, vr as int);
            }
            vr = vr + 1;
        }
        proof {
            if progress {
                let w = choose|w: int|
                    0 <= w < old(self).edges@.len() && old(self).edges@[w] == EdgeState::Unknown
                        && #[trigger] self.edges@[w] != EdgeState::Unknown;
                assert(self.edges@[w] != old(self).edges@[w]);
            } else {
                assert forall|e: int| 0 <= e < self.edges@.len() implies self.edges@[e] == old(self).edges@[e] by {
                    if old(self).edges@[e] == EdgeState::Unknown && self.edges@[e] != EdgeState::Unknown {
                        assert(decided_some(old(self).edges@, self.edges@));
                    }
                }
                assert(self.edges@ =~= old(self).edges@);
            }
        }
        Ok(progress)
    }
}

} // verus!
