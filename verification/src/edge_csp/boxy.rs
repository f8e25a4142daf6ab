//! Block / non-block propagation over the cached components.  A component is
//! a rectangle exactly when its cell count equals the area of its bounding
//! box.

use vstd::prelude::*;
use crate::edge_csp::grid::{lemma_cell_edge_sides, lemma_edge_in_cell_edges, lemma_pos_bounds, lemma_wf_bounds};
use crate::edge_csp::prop::force_all;
use crate::edge_csp::solver::Solver;
use crate::edge_csp::types::{CellId, EdgeId, EdgeState};

verus! {

pub open spec fn min_int(a: int, b: int) -> int {
    if a <= b {
        a
    } else {
        b
    }
}

pub open spec fn max_int(a: int, b: int) -> int {
    if a >= b {
        a
    } else {
        b
    }
}

/// The row and column extents `(min_row, max_row, min_col, max_col)` of
/// `cells` on a grid of `cols` columns, folded from `(rows, 0, cols, 0)`.
pub open spec fn cells_bbox(rows: int, cols: int, cells: Seq<CellId>) -> (int, int, int, int)
    decreases cells.len(),
{
    if cells.len() == 0 {
        (rows, 0, cols, 0)
    } else {
        let b = cells_bbox(rows, cols, cells.drop_last());
        let c = cells.last() as int;
        (min_int(b.0, c / cols), max_int(b.1, c / cols), min_int(b.2, c % cols), max_int(b.3, c % cols))
    }
}

pub proof fn lemma_bbox_bounds(rows: int, cols: int, cells: Seq<CellId>)
    requires
        rows >= 0,
        cols >= 0,
        forall|j: int| 0 <= j < cells.len() ==> (#[trigger] cells[j]) < rows * cols,
    ensures
        cells.len() > 0 ==> {
            let b = cells_bbox(rows, cols, cells);
            &&& 0 <= b.0 <= b.1 < rows
            &&& 0 <= b.2 <= b.3 < cols
        },
        forall|j: int|
            0 <= j < cells.len() ==> {
                let b = cells_bbox(rows, cols, cells);
                &&& b.0 <= (#[trigger] cells[j]) as int / cols <= b.1
                &&& b.2 <= cells[j] as int % cols <= b.3
            },
    decreases cells.len(),
{
    if cells.len() > 0 {
        let prev = cells.drop_last();
        assert forall|j: int| 0 <= j < prev.len() implies (#[trigger] prev[j]) < rows * cols by {
            assert(prev[j] == cells[j]);
        }
        lemma_bbox_bounds(rows, cols, prev);
        assert(cells[cells.len() - 1] < rows * cols);
        lemma_pos_bounds(rows, cols, cells.last() as int);
        let c = cells.last() as int;
        assert(0 <= c / cols < rows);
        assert(0 <= c % cols < cols);
        if prev.len() == 0 {
            assert(cells_bbox(rows, cols, prev) == (rows, 0int, cols, 0int));
        }
        assert forall|j: int| 0 <= j < cells.len() implies {
            let b = cells_bbox(rows, cols, cells);
            &&& b.0 <= (#[trigger] cells[j]) as int / cols <= b.1
            &&& b.2 <= cells[j] as int % cols <= b.3
        } by {
            if j < prev.len() {
                assert(prev[j] == cells[j]);
            }
        }
    }
}

impl Solver {
    /// The bounding box of cached component `ci`.
    pub open spec fn comp_bbox(&self, ci: int) -> (int, int, int, int) {
        cells_bbox(self.grid.rows as int, self.grid.cols as int, self.comp_cells@[ci]@)
    }

    /// The number of grid cells in the bounding box of component `ci`.
    pub open spec fn bbox_area(&self, ci: int) -> int {
        let b = self.comp_bbox(ci);
        (b.1 - b.0 + 1) * (b.3 - b.2 + 1)
    }

    /// The block / non-block verdict on component `ci`: `None` for a
    /// contradiction (a sealed component of the wrong kind, or a growing one
    /// that must be a rectangle but cannot fill its box), `Some(true)` when a
    /// non-block component would become a rectangle by taking its single
    /// hole, `Some(false)` otherwise.
    pub open spec fn boxy_verdict(&self, ci: int) -> Option<bool> {
        let cnt = self.curr_comp_sz@[ci] as int;
        let area = self.bbox_area(ci);
        let rect = cnt == area;
        if cnt == 0 {
            Some(false)
        } else if self.spec_sealed(ci) {
            if (self.rules.non_boxy && rect) || (self.rules.boxy && !rect) {
                None
            } else {
                Some(false)
            }
        } else if ci >= self.prop.curr_max_area@.len() {
            Some(false)
        } else {
            let cap = self.prop.curr_max_area@[ci] as int;
            if self.rules.boxy && cnt < area && area > cap {
                None
            } else {
                Some(self.rules.non_boxy && cnt < area && area - cnt == 1 && cap == area)
            }
        }
    }

    /// Edge `e` has cell `c` on one side and, on the other, an existing cell
    /// of another component inside component `ci`'s bounding box.
    pub open spec fn hole_via(&self, ci: int, e: int, c: int) -> bool {
        let (a, b) = self.grid.spec_edge_cells(e);
        let nid = if a == c {
            b
        } else {
            a
        };
        let bb = self.comp_bbox(ci);
        let cols = self.grid.cols as int;
        &&& a == c || b == c
        &&& self.grid.cell_exists@[nid]
        &&& self.curr_comp_id@[nid] != ci
        &&& bb.0 <= nid / cols <= bb.1
        &&& bb.2 <= nid % cols <= bb.3
    }

    /// Undecided edge `e` is cut by the non-block rule: it joins a component
    /// with verdict `Some(true)` to the hole of its box.
    pub open spec fn hole_cut(&self, num_comp: int, e: int) -> bool {
        &&& 0 <= e < self.grid.n_edges()
        &&& self.edges@[e] == EdgeState::Unknown
        &&& exists|ci: int, j: int|
            0 <= ci < num_comp && self.boxy_verdict(ci) == Some(true) && 0 <= j < self.comp_cells@[ci]@.len()
                && #[trigger] self.hole_via(ci, e, self.comp_cells@[ci]@[j] as int)
    }

    /// The cached components below `num_comp` are consistent: one cell list
    /// per component, as long as its recorded size, of cells on the grid.
    pub open spec fn comp_cache_ok(&self, num_comp: int) -> bool {
        &&& num_comp <= self.comp_cells@.len()
        &&& num_comp <= self.curr_comp_sz@.len()
        &&& self.curr_comp_id@.len() == self.grid.n_cells()
        &&& forall|ci: int|
            0 <= ci < num_comp ==> (#[trigger] self.comp_cells@[ci])@.len() == self.curr_comp_sz@[ci]
        &&& forall|ci: int, j: int|
            0 <= ci < num_comp && 0 <= j < self.comp_cells@[ci]@.len() ==> (#[trigger] self.comp_cells@[ci]@[j])
                < self.grid.n_cells()
    }

    /// The bounding box of component `ci`.
    fn comp_bbox_of(&self, ci: usize) -> (b: (usize, usize, usize, usize))
        requires
            self.grid.wf(),
            ci < self.comp_cells@.len(),
            forall|j: int|
                0 <= j < self.comp_cells@[ci as int]@.len() ==> (#[trigger] self.comp_cells@[ci as int]@[j])
                    < self.grid.n_cells(),
        ensures
            (b.0 as int, b.1 as int, b.2 as int, b.3 as int) == self.comp_bbox(ci as int),
    {
        proof {
            lemma_wf_bounds(self.grid);
        }
        let ghost cells = self.comp_cells@[ci as int]@;
        let rows = self.grid.rows;
        let cols = self.grid.cols;
        let mut b: (usize, usize, usize, usize) = (rows, 0, cols, 0);
        let mut j: usize = 0;
        while j < self.comp_cells[ci].len()
            invariant
                self.grid.wf(),
                rows == self.grid.rows,
                cols == self.grid.cols,
                ci < self.comp_cells@.len(),
                cells == self.comp_cells@[ci as int]@,
                forall|q: int| 0 <= q < cells.len() ==> (#[trigger] cells[q]) < self.grid.n_cells(),
                j <= cells.len(),
                (b.0 as int, b.1 as int, b.2 as int, b.3 as int) == cells_bbox(rows as int, cols as int, cells.take(j as int)),
            decreases cells.len() - j,
        {
            let c = self.comp_cells[ci][j];
            proof {
                assert(cells.take(j + 1).drop_last() == cells.take(j as int));
                lemma_pos_bounds(rows as int, cols as int, c as int);
            }
            let (r, col) = self.grid.cell_pos(c);
            b = (
                if r < b.0 {
                    r
                } else {
                    b.0
                },
                if r > b.1 {
                    r
                } else {
                    b.1
                },
                if col < b.2 {
                    col
                } else {
                    b.2
                },
                if col > b.3 {
                    col
                } else {
                    b.3
                },
            );
            j = j + 1;
        }
        proof {
            assert(cells.take(j as int) == cells);
        }
        b
    }

    /// The verdict on component `ci` (see `boxy_verdict`) and its bounding
    /// box.
    fn boxy_component(&self, ci: usize) -> (res: (Option<bool>, (usize, usize, usize, usize)))
        requires
            self.grid.wf(),
            self.comp_cache_ok(ci + 1),
        ensures
            res.0 == self.boxy_verdict(ci as int),
            (res.1.0 as int, res.1.1 as int, res.1.2 as int, res.1.3 as int) == self.comp_bbox(ci as int),
    {
        let bb = self.comp_bbox_of(ci);
        let cnt = self.curr_comp_sz[ci];
        if cnt == 0 {
            return (Some(false), bb);
        }
        let ghost cells = self.comp_cells@[ci as int]@;
        proof {
            lemma_wf_bounds(self.grid);
            lemma_bbox_bounds(self.grid.rows as int, self.grid.cols as int, cells);
            let hh = bb.1 - bb.0 + 1;
            let ww = bb.3 - bb.2 + 1;
            assert(hh * ww <= self.grid.rows * self.grid.cols) by (nonlinear_arith)
                requires
                    0 < hh <= self.grid.rows,
                    0 < ww <= self.grid.cols,
            ;
        }
        let area = (bb.1 - bb.0 + 1) * (bb.3 - bb.2 + 1);
        let rect = cnt == area;
        if self.is_sealed(ci) {
            if (self.rules.non_boxy && rect) || (self.rules.boxy && !rect) {
                return (None, bb);
            }
            return (Some(false), bb);
        }
        if ci >= self.prop.curr_max_area.len() {
            return (Some(false), bb);
        }
        let cap = self.prop.curr_max_area[ci];
        if self.rules.boxy && cnt < area && area > cap {
            return (None, bb);
        }
        (Some(self.rules.non_boxy && cnt < area && area - cnt == 1 && cap == area), bb)
    }

    /// Considers edge slot `k` of cell `c`, adding its edge to `cuts` when it
    /// is an undecided hole edge of component `ci`.
    fn consider_hole_edge(
        &self,
        ci: usize,
        c: CellId,
        k: usize,
        bb: (usize, usize, usize, usize),
        cuts: &mut Vec<EdgeId>,
    )
        requires
            self.grid.wf(),
            self.edges@.len() == self.grid.n_edges(),
            self.curr_comp_id@.len() == self.grid.n_cells(),
            ci < self.comp_cells@.len(),
            c < self.grid.n_cells(),
            k < 4,
            (bb.0 as int, bb.1 as int, bb.2 as int, bb.3 as int) == self.comp_bbox(ci as int),
        ensures
            forall|e: EdgeId|
                #[trigger] final(cuts)@.contains(e) <==> (old(cuts)@.contains(e) || (self.grid.spec_cell_edges(
                    c as int,
                )[k as int] == Some(e) && self.edges@[e as int] == EdgeState::Unknown && self.hole_via(
                    ci as int,
                    e as int,
                    c as int,
                ))),
    {
        let eds = self.grid.cell_edges(c);
        if let Some(e) = eds[k] {
            proof {
                lemma_cell_edge_sides(self.grid, c as int, k as int);
            }
            let (a, b) = self.grid.edge_cells(e);
            let nid = if a == c {
                b
            } else {
                a
            };
            proof {
                lemma_wf_bounds(self.grid);
            }
            let (nr, nc) = self.grid.cell_pos(nid);
            let ghost before = cuts@;
            if self.grid.cell_exists[nid] && self.curr_comp_id[nid] != ci && bb.0 <= nr && nr <= bb.1 && bb.2
                <= nc && nc <= bb.3 && self.edges[e] == EdgeState::Unknown {
                cuts.push(e);
                proof {
                    assert(self.hole_via(ci as int, e as int, c as int));
                    assert forall|x: EdgeId| #[trigger] cuts@.contains(x) <==> (before.contains(x) || x == e) by {
                        if cuts@.contains(x) {
                            let i = choose|i: int| 0 <= i < cuts@.len() && cuts@[i] == x;
                            if i < before.len() {
                                assert(before[i] == x);
                            }
                        }
                        if before.contains(x) {
                            let i = choose|i: int| 0 <= i < before.len() && before[i] == x;
                            assert(cuts@[i] == x);
                        }
                        if x == e {
                            assert(cuts@[before.len() as int] == x);
                        }
                    }
                }
            } else {
                proof {
                    assert(!(self.edges@[e as int] == EdgeState::Unknown && self.hole_via(ci as int, e as int, c as int)));
                }
            }
        }
    }

    /// Adds to `cuts` the undecided hole edges of component `ci` at cell `c`.
    fn collect_cell_holes(
        &self,
        ci: usize,
        c: CellId,
        bb: (usize, usize, usize, usize),
        cuts: &mut Vec<EdgeId>,
    )
        requires
            self.grid.wf(),
            self.edges@.len() == self.grid.n_edges(),
            self.curr_comp_id@.len() == self.grid.n_cells(),
            ci < self.comp_cells@.len(),
            c < self.grid.n_cells(),
            (bb.0 as int, bb.1 as int, bb.2 as int, bb.3 as int) == self.comp_bbox(ci as int),
        ensures
            forall|e: EdgeId|
                #[trigger] final(cuts)@.contains(e) <==> (old(cuts)@.contains(e) || (e < self.grid.n_edges()
                    && self.edges@[e as int] == EdgeState::Unknown && self.hole_via(ci as int, e as int, c as int))),
    {
        let ghost c0 = cuts@;
        self.consider_hole_edge(ci, c, 0, bb, cuts);
        self.consider_hole_edge(ci, c, 1, bb, cuts);
        self.consider_hole_edge(ci, c, 2, bb, cuts);
        self.consider_hole_edge(ci, c, 3, bb, cuts);
        proof {
            let eds = self.grid.spec_cell_edges(c as int);
            assert forall|e: EdgeId| #[trigger] cuts@.contains(e) <==> (c0.contains(e) || (e < self.grid.n_edges()
                && self.edges@[e as int] == EdgeState::Unknown && self.hole_via(ci as int, e as int, c as int))) by {
                if e < self.grid.n_edges() && self.hole_via(ci as int, e as int, c as int) {
                    lemma_edge_in_cell_edges(self.grid, e as int);
                }
                if exists|k: int| 0 <= k < 4 && eds[k] == Some(e) {
                    let k = choose|k: int| 0 <= k < 4 && eds[k] == Some(e);
                    lemma_cell_edge_sides(self.grid, c as int, k);
                }
            }
        }
    }

    /// Adds to `cuts` the undecided hole edges of component `ci`.
    fn collect_comp_holes(&self, ci: usize, bb: (usize, usize, usize, usize), cuts: &mut Vec<EdgeId>)
        requires
            self.grid.wf(),
            self.edges@.len() == self.grid.n_edges(),
            self.comp_cache_ok(ci + 1),
            (bb.0 as int, bb.1 as int, bb.2 as int, bb.3 as int) == self.comp_bbox(ci as int),
        ensures
            forall|e: EdgeId|
                #[trigger] final(cuts)@.contains(e) <==> (old(cuts)@.contains(e) || (e < self.grid.n_edges()
                    && self.edges@[e as int] == EdgeState::Unknown && exists|j: int|
                    0 <= j < self.comp_cells@[ci as int]@.len() && #[trigger] self.hole_via(
                        ci as int,
                        e as int,
                        self.comp_cells@[ci as int]@[j] as int,
                    ))),
    {
        let ghost cells = self.comp_cells@[ci as int]@;
        let mut j: usize = 0;
        while j < self.comp_cells[ci].len()
            invariant
                self.grid.wf(),
                self.edges@.len() == self.grid.n_edges(),
                self.comp_cache_ok(ci + 1),
                (bb.0 as int, bb.1 as int, bb.2 as int, bb.3 as int) == self.comp_bbox(ci as int),
                cells == self.comp_cells@[ci as int]@,
                j <= cells.len(),
                forall|e: EdgeId|
                    #[trigger] cuts@.contains(e) <==> (old(cuts)@.contains(e) || (e < self.grid.n_edges()
                        && self.edges@[e as int] == EdgeState::Unknown && exists|q: int|
                        0 <= q < j && #[trigger] self.hole_via(ci as int, e as int, cells[q] as int))),
            decreases cells.len() - j,
        {
            let c = self.comp_cells[ci][j];
            let ghost before = cuts@;
            self.collect_cell_holes(ci, c, bb, cuts);
            proof {
                assert forall|e: EdgeId| #[trigger] cuts@.contains(e) <==> (old(cuts)@.contains(e) || (e
                    < self.grid.n_edges() && self.edges@[e as int] == EdgeState::Unknown && exists|q: int|
                    0 <= q < j + 1 && #[trigger] self.hole_via(ci as int, e as int, cells[q] as int))) by {
                    if e < self.grid.n_edges() && self.edges@[e as int] == EdgeState::Unknown && exists|q: int|
                        0 <= q < j + 1 && #[trigger] self.hole_via(ci as int, e as int, cells[q] as int) {
                        let q = choose|q: int| 0 <= q < j + 1 && #[trigger] self.hole_via(ci as int, e as int, cells[q] as int);
                        if q < j {
                            assert(before.contains(e));
                        }
                    }
                }
            }
            j = j + 1;
        }
    }

    /// Block / non-block propagation over the first `num_comp` cached
    /// components (nothing to do without either rule).  A contradiction in
    /// any component's verdict (see `boxy_verdict`) fails the call with no
    /// edge changed; otherwise every hole edge (see `hole_cut`) is cut, and
    /// the result is whether any was.
    pub fn propagate_boxy_nonboxy(&mut self, num_comp: usize) -> (r: Result<bool, ()>)
        requires
            old(self).trail_ok(),
            old(self).comp_cache_ok(num_comp as int),
        ensures
            final(self).trail_ok(),
            final(self).same_context(&*old(self)),
            final(self).pre_marked == old(self).pre_marked,
            final(self).is_pre_cut == old(self).is_pre_cut,
            !old(self).rules.boxy && !old(self).rules.non_boxy ==> r == Ok::<bool, ()>(false)
                && final(self).edges@ == old(self).edges@,
            old(self).rules.boxy || old(self).rules.non_boxy ==> {
                &&& r is Err <==> exists|ci: int|
                    0 <= ci < num_comp && #[trigger] old(self).boxy_verdict(ci) is None
                &&& r is Err ==> final(self).edges@ == old(self).edges@
                &&& r matches Ok(progress) ==> {
                    &&& forall|e: int|
                        0 <= e < old(self).edges@.len() ==> #[trigger] final(self).edges@[e] == if old(
                            self,
                        ).hole_cut(num_comp as int, e) {
                            EdgeState::Cut
                        } else {
                            old(self).edges@[e]
                        }
                    &&& progress == exists|e: int| #[trigger] old(self).hole_cut(num_comp as int, e)
                }
            },
    {
        if !self.rules.boxy && !self.rules.non_boxy {
            return Ok(false);
        }
        let mut cuts: Vec<EdgeId> = Vec::new();
        let mut ci: usize = 0;
        while ci < num_comp
            invariant
                *self == *old(self),
                self.trail_ok(),
                self.comp_cache_ok(num_comp as int),
                ci <= num_comp,
                forall|k: int| 0 <= k < ci ==> #[trigger] self.boxy_verdict(k) is Some,
                forall|e: EdgeId|
                    #[trigger] cuts@.contains(e) <==> (e < self.grid.n_edges() && self.edges@[e as int]
                        == EdgeState::Unknown && exists|k: int, j: int|
                        0 <= k < ci && self.boxy_verdict(k) == Some(true) && 0 <= j < self.comp_cells@[k]@.len()
                            && #[trigger] self.hole_via(k, e as int, self.comp_cells@[k]@[j] as int)),
            decreases num_comp - ci,
        {
            proof {
                assert(self.comp_cache_ok(ci + 1));
            }
            let (verdict, bb) = self.boxy_component(ci);
            match verdict {
                None => {
                    return Err(());
                },
                Some(true) => {
                    let ghost before = cuts@;
                    self.collect_comp_holes(ci, bb, &mut cuts);
                    proof {
                        assert forall|e: EdgeId| #[trigger] cuts@.contains(e) <==> (e < self.grid.n_edges()
                            && self.edges@[e as int] == EdgeState::Unknown && exists|k: int, j: int|
                            0 <= k < ci + 1 && self.boxy_verdict(k) == Some(true) && 0 <= j
                                < self.comp_cells@[k]@.len() && #[trigger] self.hole_via(
                                k,
                                e as int,
                                self.comp_cells@[k]@[j] as int,
                            )) by {
                            if e < self.grid.n_edges() && self.edges@[e as int] == EdgeState::Unknown && exists|k: int, j: int|
                                0 <= k < ci + 1 && self.boxy_verdict(k) == Some(true) && 0 <= j
                                    < self.comp_cells@[k]@.len() && #[trigger] self.hole_via(
                                    k,
                                    e as int,
                                    self.comp_cells@[k]@[j] as int,
                                ) {
                                let (k, j) = choose|k: int, j: int|
                                    0 <= k < ci + 1 && self.boxy_verdict(k) == Some(true) && 0 <= j
                                        < self.comp_cells@[k]@.len() && #[trigger] self.hole_via(
                                        k,
                                        e as int,
                                        self.comp_cells@[k]@[j] as int,
                                    );
                                if k < ci {
                                    assert(before.contains(e));
                                }
                            }
                        }
                    }
                },
                Some(false) => {
                    proof {
                        assert forall|e: EdgeId| #[trigger] cuts@.contains(e) <==> (e < self.grid.n_edges()
                            && self.edges@[e as int] == EdgeState::Unknown && exists|k: int, j: int|
                            0 <= k < ci + 1 && self.boxy_verdict(k) == Some(true) && 0 <= j
                                < self.comp_cells@[k]@.len() && #[trigger] self.hole_via(
                                k,
                                e as int,
                                self.comp_cells@[k]@[j] as int,
                            )) by {
                            if e < self.grid.n_edges() && self.edges@[e as int] == EdgeState::Unknown && exists|k: int, j: int|
                                0 <= k < ci + 1 && self.boxy_verdict(k) == Some(true) && 0 <= j
                                    < self.comp_cells@[k]@.len() && #[trigger] self.hole_via(
                                    k,
                                    e as int,
                                    self.comp_cells@[k]@[j] as int,
                                ) {
                                let (k, j) = choose|k: int, j: int|
                                    0 <= k < ci + 1 && self.boxy_verdict(k) == Some(true) && 0 <= j
                                        < self.comp_cells@[k]@.len() && #[trigger] self.hole_via(
                                        k,
                                        e as int,
                                        self.comp_cells@[k]@[j] as int,
                                    );
                                assert(k != ci);
                            }
                        }
                    }
                },
            }
            ci = ci + 1;
        }
        proof {
            assert forall|i: int| 0 <= i < cuts@.len() implies (#[trigger] cuts@[i]) < self.grid.n_edges()
                && self.edges@[cuts@[i] as int] == EdgeState::Unknown by {
                assert(cuts@.contains(cuts@[i]));
            }
        }
        let ghost pre_edges = self.edges@;
        self.force_edges(&cuts, EdgeState::Cut);
        proof {
            lemma_wf_bounds(old(self).grid);
            assert forall|e: int| 0 <= e < old(self).edges@.len() implies #[trigger] self.edges@[e] == if old(
                self,
            ).hole_cut(num_comp as int, e) {
                EdgeState::Cut
            } else {
                old(self).edges@[e]
            } by {
                let eu = e as usize;
                assert(eu as int == e);
                if old(self).hole_cut(num_comp as int, e) {
                    assert(cuts@.contains(eu));
                }
            }
            if cuts@.len() > 0 {
                assert(cuts@.contains(cuts@[0]));
                assert(old(self).hole_cut(num_comp as int, cuts@[0] as int));
            }
            if exists|e: int| #[trigger] old(self).hole_cut(num_comp as int, e) {
                let e = choose|e: int| #[trigger] old(self).hole_cut(num_comp as int, e);
                let eu = e as usize;
                assert(eu as int == e);
                assert(cuts@.contains(eu));
            }
        }
        Ok(cuts.len() > 0)
    }
}

} // verus!
