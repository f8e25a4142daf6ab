//! Watchtower propagation from the cached pieces: a clued grid point sees
//! as many distinct pieces as its clue says, counted over the component ids
//! of the surrounding cells.

use vstd::prelude::*;
use crate::edge_csp::grid::{lemma_corner_adjacent, lemma_wf_bounds};
use crate::edge_csp::prop::force_all;
use crate::edge_csp::solver::Solver;
use crate::edge_csp::types::{CellId, EdgeId, EdgeState, VertexClue};
use crate::rose::pin::list_has;

verus! {

/// The number of distinct values in `s`.
pub open spec fn distinct_count(s: Seq<usize>) -> int
    decreases s.len(),
{
    if s.len() == 0 {
        0
    } else {
        distinct_count(s.drop_last()) + if s.drop_last().contains(s.last()) {
            0int
        } else {
            1int
        }
    }
}

/// The verdict on a clued grid point with `n` existing cells around it,
/// `cc` distinct pieces among them of which `sealed` can no longer grow:
/// `None` on a contradiction, `Some(true)` when the pieces must all stay
/// apart, `Some(false)` when nothing follows.  A point with no cells, or a
/// clue above what its cells could show, is left to the edge-count pass.
pub open spec fn pass_a_verdict(value: usize, n: int, cc: int, sealed: int) -> Option<bool> {
    if n == 0 || value > n || (n == 1 && value > 1) {
        Some(false)
    } else if value < sealed + (if cc - sealed > 0 {
        1int
    } else {
        0int
    }) || value > cc {
        None
    } else {
        Some(cc == value && cc > 1)
    }
}

fn pass_a_decide(value: usize, n: usize, cc: usize, sealed: usize) -> (r: Option<bool>)
    requires
        sealed <= cc,
        cc <= 4,
    ensures
        r == pass_a_verdict(value, n as int, cc as int, sealed as int),
{
    if n == 0 || value > n || (n == 1 && value > 1) {
        return Some(false);
    }
    let min_distinct = sealed + if cc - sealed > 0 {
        1
    } else {
        0
    };
    if value < min_distinct || value > cc {
        None
    } else {
        Some(cc == value && cc > 1)
    }
}

impl Solver {
    /// The distinct values of `s` whose piece is sealed.
    pub open spec fn sealed_distinct(&self, s: Seq<usize>) -> int
        decreases s.len(),
    {
        if s.len() == 0 {
            0
        } else {
            self.sealed_distinct(s.drop_last()) + if !s.drop_last().contains(s.last()) && self.spec_sealed(
                s.last() as int,
            ) {
                1int
            } else {
                0int
            }
        }
    }

    /// The component id of corner cell `o`, when present.
    pub open spec fn comp_at(&self, o: Option<CellId>) -> Seq<usize> {
        if self.present(o) {
            seq![self.curr_comp_id@[o.unwrap() as int]]
        } else {
            Seq::empty()
        }
    }

    /// Component ids of the existing cells around grid point `v`, in corner
    /// order (repeats kept).
    pub open spec fn corner_comps(&self, v: int) -> Seq<usize> {
        let cs = self.corner_cells(v);
        self.comp_at(cs[0]) + self.comp_at(cs[1]) + self.comp_at(cs[2]) + self.comp_at(cs[3])
    }

    /// The undecided edge between corner cells `a` and `b` when both are
    /// present and lie in different pieces.
    pub open spec fn pass_a_pair(&self, edges: Seq<EdgeState>, cs: [Option<CellId>; 4], a: int, b: int) -> Seq<
        EdgeId,
    > {
        let e = self.grid.spec_edge_between(cs[a].unwrap() as int, cs[b].unwrap() as int);
        if self.present(cs[a]) && self.present(cs[b]) && self.curr_comp_id@[cs[a].unwrap() as int]
            != self.curr_comp_id@[cs[b].unwrap() as int] && edges[e] == EdgeState::Unknown {
            seq![e as usize]
        } else {
            Seq::empty()
        }
    }

    /// The undecided internal edges at grid point `v` between different
    /// pieces, in the order top, left, right, bottom.
    pub open spec fn pass_a_cuts(&self, edges: Seq<EdgeState>, v: int) -> Seq<EdgeId> {
        let cs = self.corner_cells(v);
        self.pass_a_pair(edges, cs, 0, 1) + self.pass_a_pair(edges, cs, 0, 2) + self.pass_a_pair(edges, cs, 1, 3)
            + self.pass_a_pair(edges, cs, 2, 3)
    }

    /// The edges one clue forces to `Cut`, or `None` on a contradiction.
    pub open spec fn pass_a_clue(&self, edges: Seq<EdgeState>, clue: VertexClue) -> Option<Seq<EdgeId>> {
        let v = clue.vertex as int;
        let comps = self.corner_comps(v);
        match pass_a_verdict(clue.value, self.corner_count(v), distinct_count(comps), self.sealed_distinct(comps)) {
            None => None,
            Some(false) => Some(Seq::empty()),
            Some(true) => Some(self.pass_a_cuts(edges, v)),
        }
    }

    /// The edges the first `k` clues force to `Cut`, all read from `edges`;
    /// `None` when one of them is contradicted.
    pub open spec fn pass_a_run(&self, edges: Seq<EdgeState>, k: int) -> Option<Seq<EdgeId>>
        decreases k,
    {
        if k <= 0 {
            Some(Seq::empty())
        } else {
            match (self.pass_a_run(edges, k - 1), self.pass_a_clue(edges, self.vertex_clues@[k - 1])) {
                (Some(a), Some(b)) => Some(a + b),
                _ => None,
            }
        }
    }

    proof fn lemma_pass_a_none(&self, edges: Seq<EdgeState>, k: int)
        requires
            1 <= k <= self.vertex_clues@.len(),
            self.pass_a_run(edges, k) is None,
        ensures
            self.pass_a_run(edges, self.vertex_clues@.len() as int) is None,
        decreases self.vertex_clues@.len() - k,
    {
        if k < self.vertex_clues@.len() {
            self.lemma_pass_a_none(edges, k + 1);
        }
    }

    /// Component ids of the existing cells around `vertex`, in corner order.
    fn corner_comp_ids(&self, vertex: usize) -> (r: (Vec<usize>, [Option<CellId>; 4]))
        requires
            self.grid.wf(),
            vertex < self.grid.n_vertices(),
            self.curr_comp_id@.len() == self.grid.n_cells(),
        ensures
            r.0@ == self.corner_comps(vertex as int),
            r.1 == self.corner_cells(vertex as int),
            forall|q: int| 0 <= q < 4 && (#[trigger] r.1[q]).is_some() ==> r.1[q].unwrap() < self.grid.n_cells(),
    {
        proof {
            lemma_wf_bounds(self.grid);
            crate::edge_csp::grid::lemma_pos_bounds(self.grid.rows + 1, self.grid.cols + 1, vertex as int);
            vstd::arithmetic::div_mod::lemma_mod_bound(vertex as int, self.grid.cols + 1);
        }
        let (vi, vj) = self.grid.vertex_pos(vertex);
        let cs = self.grid.vertex_cells(vi, vj);
        let mut comps: Vec<usize> = Vec::new();
        let mut k: usize = 0;
        while k < 4
            invariant
                self.grid.wf(),
                self.curr_comp_id@.len() == self.grid.n_cells(),
                cs == self.corner_cells(vertex as int),
                forall|q: int| 0 <= q < 4 && (#[trigger] cs[q]).is_some() ==> cs[q].unwrap() < self.grid.n_cells(),
                k <= 4,
                comps@ == (if k > 0 { self.comp_at(cs[0]) } else { Seq::empty() }) + (if k > 1 {
                    self.comp_at(cs[1])
                } else {
                    Seq::empty()
                }) + (if k > 2 { self.comp_at(cs[2]) } else { Seq::empty() }) + (if k > 3 {
                    self.comp_at(cs[3])
                } else {
                    Seq::empty()
                }),
            decreases 4 - k,
        {
            let ghost before = comps@;
            if let Some(c) = cs[k] {
                if self.grid.cell_exists[c] {
                    comps.push(self.curr_comp_id[c]);
                }
            }
            proof {
                assert(comps@ == before + self.comp_at(cs[k as int]));
            }
            k = k + 1;
        }
        (comps, cs)
    }

    /// The distinct ids among `comps` and how many of them are sealed.
    fn count_pieces(&self, comps: &Vec<usize>) -> (r: (usize, usize))
        requires
            comps@.len() <= 4,
        ensures
            r.0 == distinct_count(comps@),
            r.1 == self.sealed_distinct(comps@),
            r.1 <= r.0 <= 4,
    {
        let mut seen: Vec<usize> = Vec::new();
        let mut cc: usize = 0;
        let mut sealed: usize = 0;
        let mut j: usize = 0;
        while j < comps.len()
            invariant
                comps@.len() <= 4,
                j <= comps@.len(),
                forall|x: usize| #[trigger] seen@.contains(x) <==> comps@.take(j as int).contains(x),
                cc == distinct_count(comps@.take(j as int)),
                sealed == self.sealed_distinct(comps@.take(j as int)),
                sealed <= cc <= j,
            decreases comps@.len() - j,
        {
            let ci = comps[j];
            let ghost t0 = comps@.take(j as int);
            let ghost t1 = comps@.take(j + 1);
            proof {
                assert(t1.drop_last() == t0);
                assert(t1.last() == ci);
            }
            if !list_has(&seen, ci) {
                let ghost s0 = seen@;
                proof {
                    assert(forall|x: usize| #[trigger] s0.contains(x) <==> t0.contains(x));
                }
                seen.push(ci);
                cc = cc + 1;
                if self.is_sealed(ci) {
                    sealed = sealed + 1;
                }
                proof {
                    assert forall|x: usize| #[trigger] seen@.contains(x) <==> t1.contains(x) by {
                        if seen@.contains(x) && x != ci {
                            let q = choose|q: int| 0 <= q < seen@.len() && seen@[q] == x;
                            assert(seen@ == s0.push(ci));
                            assert(q < s0.len());
                            assert(s0[q] == x);
                            assert(s0.contains(x));
                            assert(t0.contains(x));
                            let p = choose|p: int| 0 <= p < t0.len() && t0[p] == x;
                            assert(t1[p] == x);
                        }
                        if x == ci {
                            assert(seen@[seen@.len() - 1] == ci);
                            assert(t1[j as int] == ci);
                        }
                        if t1.contains(x) && x != ci {
                            let p = choose|p: int| 0 <= p < t1.len() && t1[p] == x;
                            assert(p < j);
                            assert(t0[p] == x);
                            assert(s0.contains(x));
                            let q = choose|q: int| 0 <= q < s0.len() && s0[q] == x;
                            assert(seen@[q] == x);
                        }
                    }
                }
            } else {
                proof {
                    assert forall|x: usize| #[trigger] seen@.contains(x) <==> t1.contains(x) by {
                        if t1.contains(x) {
                            let p = choose|p: int| 0 <= p < t1.len() && t1[p] == x;
                            if p < j {
                                assert(t0[p] == x);
                            }
                        }
                        if t0.contains(x) {
                            let p = choose|p: int| 0 <= p < t0.len() && t0[p] == x;
                            assert(t1[p] == x);
                        }
                    }
                }
            }
            j = j + 1;
        }
        proof {
            assert(comps@.take(j as int) == comps@);
        }
        (cc, sealed)
    }

    /// The edges one clue forces to `Cut` (see `pass_a_clue`).
    fn pass_a_collect(&self, clue: VertexClue) -> (r: Option<Vec<EdgeId>>)
        requires
            self.grid.wf(),
            clue.vertex < self.grid.n_vertices(),
            self.curr_comp_id@.len() == self.grid.n_cells(),
            self.edges@.len() == self.grid.n_edges(),
        ensures
            match r {
                None => self.pass_a_clue(self.edges@, clue) is None,
                Some(v) => self.pass_a_clue(self.edges@, clue) == Some(v@),
            },
            r matches Some(v) ==> forall|q: int|
                0 <= q < v@.len() ==> (#[trigger] v@[q]) < self.grid.n_edges() && self.edges@[v@[q] as int]
                    == EdgeState::Unknown,
    {
        let (n, _eids) = self.corner_info(clue.vertex);
        let (comps, cs) = self.corner_comp_ids(clue.vertex);
        proof {
            assert(comps@.len() <= 4);
        }
        let (cc, sealed) = self.count_pieces(&comps);
        let verdict = pass_a_decide(clue.value, n, cc, sealed);
        match verdict {
            None => None,
            Some(false) => Some(Vec::new()),
            Some(true) => {
                let ghost v = clue.vertex as int;
                proof {
                    lemma_wf_bounds(self.grid);
                    crate::edge_csp::grid::lemma_pos_bounds(self.grid.rows + 1, self.grid.cols + 1, v);
                    vstd::arithmetic::div_mod::lemma_mod_bound(v, self.grid.cols + 1);
                }
                let ghost vi = v / (self.grid.cols + 1);
                let ghost vj = v % (self.grid.cols + 1);
                let mut cuts: Vec<EdgeId> = Vec::new();
                let pairs: [(usize, usize); 4] = [(0, 1), (0, 2), (1, 3), (2, 3)];
                let mut t: usize = 0;
                while t < 4
                    invariant
                        self.grid.wf(),
                        self.curr_comp_id@.len() == self.grid.n_cells(),
                        self.edges@.len() == self.grid.n_edges(),
                        cs == self.corner_cells(v),
                        cs == self.grid.spec_vertex_cells(vi, vj),
                        0 <= vi <= self.grid.rows,
                        0 <= vj <= self.grid.cols,
                        forall|q: int| 0 <= q < 4 && (#[trigger] cs[q]).is_some() ==> cs[q].unwrap() < self.grid.n_cells(),
                        pairs == [(0usize, 1usize), (0usize, 2usize), (1usize, 3usize), (2usize, 3usize)],
                        t <= 4,
                        cuts@ == (if t > 0 { self.pass_a_pair(self.edges@, cs, 0, 1) } else { Seq::empty() }) + (if t
                            > 1 {
                            self.pass_a_pair(self.edges@, cs, 0, 2)
                        } else {
                            Seq::empty()
                        }) + (if t > 2 { self.pass_a_pair(self.edges@, cs, 1, 3) } else { Seq::empty() }) + (if t > 3 {
                            self.pass_a_pair(self.edges@, cs, 2, 3)
                        } else {
                            Seq::empty()
                        }),
                        forall|q: int|
                            0 <= q < cuts@.len() ==> (#[trigger] cuts@[q]) < self.grid.n_edges() && self.edges@[cuts@[q] as int]
                                == EdgeState::Unknown,
                    decreases 4 - t,
                {
                    let (ai, bi) = pairs[t];
                    let ghost before = cuts@;
                    if let (Some(a), Some(b)) = (cs[ai], cs[bi]) {
                        if self.grid.cell_exists[a] && self.grid.cell_exists[b]
                            && self.curr_comp_id[a] != self.curr_comp_id[b] {
                            match self.grid.edge_between(a, b) {
                                Some(e) => {
                                    if self.edges[e] == EdgeState::Unknown {
                                        cuts.push(e);
                                    }
                                },
                                None => {
                                    proof {
                                        lemma_corner_adjacent(self.grid, vi, vj, ai as int, bi as int);
                                    }
                                },
                            }
                        }
                    }
                    proof {
                        assert(cuts@ == before + self.pass_a_pair(self.edges@, cs, ai as int, bi as int));
                    }
                    t = t + 1;
                }
                Some(cuts)
            },
        }
    }

    /// Watchtower propagation from the cached pieces.  For each clued grid
    /// point, the distinct pieces around it bound the clue: at least the
    /// sealed ones plus one for the growing ones, at most all of them; a
    /// clue outside those bounds is a contradiction, reported before any
    /// edge is touched.  When the clue equals the number of distinct pieces
    /// (more than one), the pieces must stay apart, so every undecided
    /// internal edge there between different pieces is cut.  Nothing is done
    /// without cached pieces.  The result is whether any edge was decided.
    pub fn watchtower_pass_a(&mut self) -> (r: Result<bool, ()>)
        requires
            old(self).trail_ok(),
            old(self).clues_in_range(),
            old(self).comps_ok(),
        ensures
            final(self).trail_ok(),
            final(self).same_context(&*old(self)),
            final(self).pre_marked == old(self).pre_marked,
            final(self).is_pre_cut == old(self).is_pre_cut,
            old(self).curr_comp_id@.len() == 0 ==> r == Ok::<bool, ()>(false) && final(self).edges@ == old(
                self,
            ).edges@,
            old(self).curr_comp_id@.len() > 0 ==> match old(self).pass_a_run(
                old(self).edges@,
                old(self).vertex_clues@.len() as int,
            ) {
                None => r is Err && final(self).edges@ == old(self).edges@,
                Some(cuts) => r == Ok::<bool, ()>(cuts.len() > 0) && final(self).edges@ == force_all(
                    old(self).edges@,
                    cuts,
                    EdgeState::Cut,
                ),
            },
    {
        if self.curr_comp_id.len() == 0 {
            return Ok(false);
        }
        let mut all: Vec<EdgeId> = Vec::new();
        let mut i: usize = 0;
        while i < self.vertex_clues.len()
            invariant
                self.trail_ok(),
                self.clues_in_range(),
                self.comps_ok(),
                self.curr_comp_id@.len() > 0,
                i <= self.vertex_clues@.len(),
                self.pass_a_run(self.edges@, i as int) == Some(all@),
                forall|q: int|
                    0 <= q < all@.len() ==> (#[trigger] all@[q]) < self.grid.n_edges() && self.edges@[all@[q] as int]
                        == EdgeState::Unknown,
            decreases self.vertex_clues@.len() - i,
        {
            let clue = self.vertex_clues[i];
            match self.pass_a_collect(clue) {
                None => {
                    proof {
                        self.lemma_pass_a_none(self.edges@, i + 1);
                    }
                    return Err(());
                },
                Some(cuts) => {
                    let ghost a0 = all@;
                    let ghost c0 = cuts@;
                    let mut cuts = cuts;
                    all.append(&mut cuts);
                    proof {
                        assert(self.pass_a_run(self.edges@, i + 1) == Some(all@));
                        assert forall|q: int| 0 <= q < all@.len() implies (#[trigger] all@[q]) < self.grid.n_edges()
                            && self.edges@[all@[q] as int] == EdgeState::Unknown by {
                            if q >= a0.len() {
                                assert(all@[q] == c0[q - a0.len()]);
                            } else {
                                assert(all@[q] == a0[q]);
                            }
                        }
                    }
                },
            }
            i = i + 1;
        }
        self.force_edges(&all, EdgeState::Cut);
        Ok(all.len() > 0)
    }
}

} // verus!
