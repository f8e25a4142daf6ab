//! Exact cut-degree propagation at interior watchtower grid points.
//!
//! With all four cells around a grid point present, the four internal edges
//! close a 4-cycle of cells, so the number of cut edges there is the number
//! of label changes around the cycle.  The clue `val` (distinct pieces seen)
//! bounds that degree: 1 gives 0; 2 gives 2 or 4 (only 2 when the puzzle has
//! exactly two pieces); 3 gives 3 or 4 (only 4 under the ring rule); 4 gives
//! 4.

use vstd::prelude::*;
use crate::edge_csp::grid::lemma_wf_bounds;
use crate::edge_csp::prop::{count_in_state, force_all};
use crate::edge_csp::solver::Solver;
use crate::edge_csp::types::{EdgeState, VertexClue};

verus! {

/// A cut degree `d` that the clue `val` allows at an interior grid point.
pub open spec fn degree_allowed(val: usize, two_pieces: bool, loopy: bool, d: int) -> bool {
    if val == 1 {
        d == 0
    } else if val == 2 {
        d == 2 || (!two_pieces && d == 4)
    } else if val == 3 {
        d == 4 || (!loopy && d == 3)
    } else {
        d == 4
    }
}

/// An allowed degree that `cut` cut and `unk` undecided edges can still reach.
pub open spec fn degree_fits(val: usize, two_pieces: bool, loopy: bool, cut: int, unk: int, d: int) -> bool {
    degree_allowed(val, two_pieces, loopy, d) && cut <= d <= cut + unk
}

/// The degree verdict at one grid point: `None` when no allowed degree is
/// reachable; forcing every undecided edge uncut when every reachable
/// degree is the present cut count, or cut when every reachable degree
/// needs all of them; `Some(None)` otherwise.
pub open spec fn degree_verdict(val: usize, two_pieces: bool, loopy: bool, cut: int, unk: int) -> Option<Option<EdgeState>> {
    if !exists|d: int| #[trigger] degree_fits(val, two_pieces, loopy, cut, unk, d) {
        None
    } else if unk > 0 && forall|d: int| #[trigger] degree_fits(val, two_pieces, loopy, cut, unk, d) ==> d == cut {
        Some(Some(EdgeState::Uncut))
    } else if unk > 0 && forall|d: int| #[trigger] degree_fits(val, two_pieces, loopy, cut, unk, d) ==> d == cut + unk {
        Some(Some(EdgeState::Cut))
    } else {
        Some(None)
    }
}

/// The two allowed degrees of a clue of value 1 to 4 (equal when only one is
/// allowed).
fn allowed_pair(val: usize, two_pieces: bool, loopy: bool) -> (r: (usize, usize))
    requires
        1 <= val <= 4,
    ensures
        forall|d: int| degree_allowed(val, two_pieces, loopy, d) <==> (d == r.0 || d == r.1),
        r.0 <= 4 && r.1 <= 4,
{
    if val == 1 {
        (0, 0)
    } else if val == 2 {
        if two_pieces {
            (2, 2)
        } else {
            (2, 4)
        }
    } else if val == 3 {
        if loopy {
            (4, 4)
        } else {
            (3, 4)
        }
    } else {
        (4, 4)
    }
}

fn degree_decide(val: usize, two_pieces: bool, loopy: bool, cut: usize, unk: usize) -> (r: Option<Option<EdgeState>>)
    requires
        1 <= val <= 4,
        cut <= 4,
        unk <= 4,
    ensures
        r == degree_verdict(val, two_pieces, loopy, cut as int, unk as int),
{
    let (a, b) = allowed_pair(val, two_pieces, loopy);
    let fa = cut <= a && a <= cut + unk;
    let fb = cut <= b && b <= cut + unk;
    proof {
        assert forall|d: int| #[trigger] degree_fits(val, two_pieces, loopy, cut as int, unk as int, d) <==> ((d == a
            && fa) || (d == b && fb)) by {}
    }
    if !fa && !fb {
        return None;
    }
    proof {
        if fa {
            assert(degree_fits(val, two_pieces, loopy, cut as int, unk as int, a as int));
        } else {
            assert(degree_fits(val, two_pieces, loopy, cut as int, unk as int, b as int));
        }
    }
    let low = (!fa || a == cut) && (!fb || b == cut);
    let high = (!fa || a == cut + unk) && (!fb || b == cut + unk);
    if unk > 0 && low {
        Some(Some(EdgeState::Uncut))
    } else if unk > 0 && high {
        proof {
            if fa && a != cut {
                assert(degree_fits(val, two_pieces, loopy, cut as int, unk as int, a as int));
            } else if fb && b != cut {
                assert(degree_fits(val, two_pieces, loopy, cut as int, unk as int, b as int));
            }
        }
        Some(Some(EdgeState::Cut))
    } else {
        proof {
            if unk > 0 {
                if fa && a != cut {
                    assert(degree_fits(val, two_pieces, loopy, cut as int, unk as int, a as int));
                } else {
                    assert(degree_fits(val, two_pieces, loopy, cut as int, unk as int, b as int));
                }
                if fa && a != cut + unk {
                    assert(degree_fits(val, two_pieces, loopy, cut as int, unk as int, a as int));
                } else {
                    assert(degree_fits(val, two_pieces, loopy, cut as int, unk as int, b as int));
                }
            }
        }
        Some(None)
    }
}

impl Solver {
    /// The degree rule at one watchtower clue: it applies to clues of value
    /// 1 to 4 at grid points with all four cells present.
    pub open spec fn degree_clue(&self, edges: Seq<EdgeState>, clue: VertexClue, two_pieces: bool) -> Option<
        Option<EdgeState>,
    > {
        let v = clue.vertex as int;
        let eids = self.corner_edges(v);
        if !(1 <= clue.value <= 4) || self.corner_count(v) != 4 {
            Some(None)
        } else {
            degree_verdict(
                clue.value,
                two_pieces,
                self.rules.loopy,
                count_in_state(edges, eids, EdgeState::Cut),
                count_in_state(edges, eids, EdgeState::Unknown),
            )
        }
    }

    /// The degree rule over the first `k` watchtower clues, clue by clue,
    /// from edge states `edges`: `None` on a contradiction.
    pub open spec fn degree_run(&self, edges: Seq<EdgeState>, k: int, two_pieces: bool) -> Option<Seq<EdgeState>>
        decreases k,
    {
        if k <= 0 {
            Some(edges)
        } else {
            match self.degree_run(edges, k - 1, two_pieces) {
                None => None,
                Some(cur) => match self.degree_clue(cur, self.vertex_clues@[k - 1], two_pieces) {
                    None => None,
                    Some(None) => Some(cur),
                    Some(Some(s)) => Some(force_all(cur, self.corner_edges(self.vertex_clues@[k - 1].vertex as int), s)),
                },
            }
        }
    }

    /// No watchtower clue exceeds the known piece count.
    pub open spec fn clues_within_pieces(&self, pieces: Option<usize>) -> bool {
        pieces matches Some(p) ==> forall|i: int|
            0 <= i < self.vertex_clues@.len() ==> (#[trigger] self.vertex_clues@[i]).value <= p
    }

    proof fn lemma_degree_none(&self, edges: Seq<EdgeState>, k: int, two_pieces: bool)
        requires
            1 <= k <= self.vertex_clues@.len(),
            self.degree_run(edges, k, two_pieces) is None,
        ensures
            self.degree_run(edges, self.vertex_clues@.len() as int, two_pieces) is None,
        decreases self.vertex_clues@.len() - k,
    {
        if k < self.vertex_clues@.len() {
            self.lemma_degree_none(edges, k + 1, two_pieces);
        }
    }

    /// One clue of the degree rule (see `degree_clue`).
    fn degree_step(&mut self, clue: VertexClue, two_pieces: bool) -> (r: Result<bool, ()>)
        requires
            old(self).trail_ok(),
            clue.vertex < old(self).grid.n_vertices(),
        ensures
            final(self).trail_ok(),
            final(self).same_context(&*old(self)),
            final(self).pre_marked == old(self).pre_marked,
            final(self).is_pre_cut == old(self).is_pre_cut,
            forall|e: int|
                0 <= e < old(self).edges@.len() && old(self).edges@[e] != EdgeState::Unknown
                    ==> #[trigger] final(self).edges@[e] == old(self).edges@[e],
            match r {
                Ok(forced) => {
                    &&& match old(self).degree_clue(old(self).edges@, clue, two_pieces) {
                        Some(Some(s)) => final(self).edges@ == force_all(
                            old(self).edges@,
                            old(self).corner_edges(clue.vertex as int),
                            s,
                        ),
                        _ => final(self).edges@ == old(self).edges@,
                    }
                    &&& old(self).degree_clue(old(self).edges@, clue, two_pieces) is Some
                    &&& forced == (final(self).edges@ != old(self).edges@)
                },
                Err(_) => old(self).degree_clue(old(self).edges@, clue, two_pieces) is None,
            },
    {
        let value = clue.value;
        if value < 1 || value > 4 {
            return Ok(false);
        }
        let (n, eids) = self.corner_info(clue.vertex);
        if n != 4 {
            return Ok(false);
        }
        let ghost cur = self.edges@;
        let (n_cut, unk) = self.count_corner_edges(&eids);
        proof {
            lemma_wf_bounds(self.grid);
            assert forall|st: EdgeState| #[trigger] force_all(cur, eids@, st) =~= force_all(cur, unk@, st) by {
                assert forall|y: int| 0 <= y < cur.len() implies force_all(cur, eids@, st)[y] == force_all(cur, unk@, st)[y] by {
                    let yu = y as usize;
                    assert(yu as int == y);
                }
            }
        }
        let verdict = degree_decide(value, two_pieces, self.rules.loopy, n_cut, unk.len());
        match verdict {
            None => Err(()),
            Some(None) => Ok(false),
            Some(Some(s)) => {
                self.force_edges(&unk, s);
                proof {
                    let w = unk@[0];
                    assert(cur[w as int] == EdgeState::Unknown);
                    assert(self.edges@[w as int] == s);
                    assert(self.edges@ != cur);
                }
                Ok(true)
            },
        }
    }

    /// Exact cut-degree propagation at interior watchtower grid points (see
    /// `degree_clue`), clue by clue.  `pieces` is the number of pieces when
    /// it is known: a clue above it is a contradiction, and exactly two
    /// pieces leave a clue of 2 only degree 2.  Undecided internal edges are
    /// forced when every reachable allowed degree agrees on them.  The
    /// result is whether any edge was decided.
    #[verifier::spinoff_prover]
    #[verifier::rlimit(50)]
    pub fn propagate_watchtower_degree(&mut self, pieces: Option<usize>) -> (r: Result<bool, ()>)
        requires
            old(self).trail_ok(),
            old(self).clues_in_range(),
        ensures
            final(self).trail_ok(),
            final(self).same_context(&*old(self)),
            final(self).pre_marked == old(self).pre_marked,
            final(self).is_pre_cut == old(self).is_pre_cut,
            forall|e: int|
                0 <= e < old(self).edges@.len() && old(self).edges@[e] != EdgeState::Unknown
                    ==> #[trigger] final(self).edges@[e] == old(self).edges@[e],
            match r {
                Ok(progress) => {
                    &&& old(self).clues_within_pieces(pieces)
                    &&& old(self).degree_run(old(self).edges@, old(self).vertex_clues@.len() as int, pieces == Some(2usize))
                        == Some(final(self).edges@)
                    &&& progress == (final(self).edges@ != old(self).edges@)
                },
                Err(_) => !old(self).clues_within_pieces(pieces) || old(self).degree_run(
                    old(self).edges@,
                    old(self).vertex_clues@.len() as int,
                    pieces == Some(2usize),
                ) is None,
            },
    {
        let two_pieces = match pieces {
            Some(p) => p == 2,
            None => false,
        };
        if let Some(p) = pieces {
            let mut i: usize = 0;
            while i < self.vertex_clues.len()
                invariant
                    *self == *old(self),
                    old(self).trail_ok(),
                    pieces == Some(p),
                    i <= self.vertex_clues@.len(),
                    forall|q: int| 0 <= q < i ==> (#[trigger] self.vertex_clues@[q]).value <= p,
                decreases self.vertex_clues@.len() - i,
            {
                if self.vertex_clues[i].value > p {
                    return Err(());
                }
                i = i + 1;
            }
        }
        let mut progress = false;
        let mut i: usize = 0;
        while i < self.vertex_clues.len()
            invariant
                self.trail_ok(),
                self.same_context(&*old(self)),
                self.pre_marked == old(self).pre_marked,
                self.is_pre_cut == old(self).is_pre_cut,
                old(self).clues_in_range(),
                old(self).clues_within_pieces(pieces),
                two_pieces == (pieces == Some(2usize)),
                self.edges@.len() == old(self).edges@.len(),
                i <= self.vertex_clues@.len(),
                old(self).degree_run(old(self).edges@, i as int, two_pieces) == Some(self.edges@),
                forall|e: int|
                    0 <= e < old(self).edges@.len() && old(self).edges@[e] != EdgeState::Unknown
                        ==> #[trigger] self.edges@[e] == old(self).edges@[e],
                progress == (self.edges@ != old(self).edges@),
            decreases self.vertex_clues@.len() - i,
        {
            let clue = self.vertex_clues[i];
            let ghost cur = self.edges@;
            let ghost before = *self;
            proof {
                assert(forall|e: int|
                    0 <= e < old(self).edges@.len() && old(self).edges@[e] != EdgeState::Unknown
                        ==> #[trigger] cur[e] == old(self).edges@[e]);
            }
            match self.degree_step(clue, two_pieces) {
                Err(_) => {
                    proof {
                        assert(before.degree_clue(cur, clue, two_pieces) == old(self).degree_clue(cur, clue, two_pieces));
                        assert(old(self).degree_run(old(self).edges@, i + 1, two_pieces) is None);
                        old(self).lemma_degree_none(old(self).edges@, i + 1, two_pieces);
                        assert forall|e: int|
                            0 <= e < old(self).edges@.len() && old(self).edges@[e] != EdgeState::Unknown
                                implies #[trigger] self.edges@[e] == old(self).edges@[e] by {
                            assert(cur[e] == old(self).edges@[e]);
                        }
                    }
                    return Err(());
                },
                Ok(forced) => {
                    proof {
                        assert(before.degree_clue(cur, clue, two_pieces) == old(self).degree_clue(cur, clue, two_pieces));
                        assert(before.corner_edges(clue.vertex as int) == old(self).corner_edges(clue.vertex as int));
                        assert(old(self).degree_run(old(self).edges@, i + 1, two_pieces) == Some(self.edges@));
                        assert forall|e: int|
                            0 <= e < old(self).edges@.len() && old(self).edges@[e] != EdgeState::Unknown
                                implies #[trigger] self.edges@[e] == old(self).edges@[e] by {
                            assert(cur[e] == old(self).edges@[e]);
                        }
                        if forced {
                            assert(exists|w: int| 0 <= w < cur.len() && #[trigger] self.edges@[w] != cur[w]) by {
                                if !(exists|w: int| 0 <= w < cur.len() && #[trigger] self.edges@[w] != cur[w]) {
                                    assert(self.edges@ =~= cur);
                                }
                            }
                            let w = choose|w: int| 0 <= w < cur.len() && #[trigger] self.edges@[w] != cur[w];
                            assert(cur[w] == EdgeState::Unknown) by {
                                if cur[w] != EdgeState::Unknown {
                                    assert(self.edges@[w] == cur[w]);
                                }
                            }
                            if old(self).edges@[w] != EdgeState::Unknown {
                                assert(cur[w] == old(self).edges@[w]);
                            }
                            assert(self.edges@[w] != old(self).edges@[w]);
                        }
                    }
                    progress = progress || forced;
                },
            }
            i = i + 1;
        }
        Ok(progress)
    }
}

} // verus!
