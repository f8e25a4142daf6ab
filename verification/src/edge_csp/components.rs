//! The component cache: the pieces of existing cells joined by uncut edges,
//! their sizes and cells, their area bounds from the clues, and the growth
//! edges between them.

use vstd::prelude::*;
use crate::edge_csp::grid::{lemma_cell_edge_sides, lemma_edge_cells_between, lemma_edge_in_cell_edges, lemma_wf_bounds};
use crate::reach::{
    lemma_marked_bound,
    lemma_search_done,
    lemma_search_mark,
    lemma_search_pop,
    lemma_search_settle,
    lemma_search_start,
    marked,
    reaches,
    search_ok,
};
use crate::edge_csp::solver::{Solver, label_seen};
use crate::edge_csp::types::{CellClue, CellId, CompassData, EdgeId, EdgeState, clue_cell};

verus! {

/// The existing cells below `k` labelled `ci`, ascending.
pub open spec fn members_below(ids: Seq<usize>, exists: Seq<bool>, ci: usize, k: int) -> Seq<CellId>
    decreases k,
{
    if k <= 0 {
        Seq::empty()
    } else {
        let p = members_below(ids, exists, ci, k - 1);
        if exists[k - 1] && ids[k - 1] == ci {
            p.push((k - 1) as usize)
        } else {
            p
        }
    }
}

proof fn lemma_members_bound(ids: Seq<usize>, exists: Seq<bool>, ci: usize, k: int)
    requires
        0 <= k,
    ensures
        members_below(ids, exists, ci, k).len() <= k,
        forall|i: int| 0 <= i < members_below(ids, exists, ci, k).len() ==> #[trigger] members_below(ids, exists, ci, k)[i] < k,
    decreases k,
{
    if k > 0 {
        lemma_members_bound(ids, exists, ci, k - 1);
        let p = members_below(ids, exists, ci, k - 1);
        if exists[k - 1] && ids[k - 1] == ci {
            assert forall|i: int| 0 <= i < p.push((k - 1) as usize).len() implies #[trigger] p.push((k - 1) as usize)[i] < k by {
                if i < p.len() {
                    assert(p.push((k - 1) as usize)[i] == p[i]);
                }
            }
        }
    }
}

impl Solver {
    /// `curr_comp_id` labels the pieces of existing cells joined by uncut
    /// edges with `0..num`, in order of their smallest cell; missing cells
    /// carry `usize::MAX`.
    pub open spec fn comp_ids_ok(&self, num: int) -> bool {
        let n = self.grid.n_cells();
        let ids = self.curr_comp_id@;
        &&& ids.len() == n
        &&& forall|c: int|
            0 <= c < n ==> if self.grid.cell_exists@[c] {
                #[trigger] ids[c] < num
            } else {
                ids[c] == usize::MAX
            }
        &&& forall|e: int|
            0 <= e < self.grid.n_edges() && #[trigger] self.joins_by(e, true) ==> ids[self.grid.spec_edge_cells(e).0]
                == ids[self.grid.spec_edge_cells(e).1]
        &&& forall|j: int| 0 <= j < num ==> #[trigger] self.comp_seen(n - 1, j)
        &&& forall|c: int, j: int|
            0 <= c < n && self.grid.cell_exists@[c] && 0 <= j <= ids[c] ==> #[trigger] self.comp_seen(c, j)
    }

    /// Some existing cell at or before `c` carries component id `j`.
    pub open spec fn comp_seen(&self, c: int, j: int) -> bool {
        exists|d: int| 0 <= d <= c && self.grid.cell_exists@[d] && #[trigger] self.curr_comp_id@[d] == j as usize
    }

    /// `comp_cells` lists the cells of each of the `num` components in
    /// ascending order and `curr_comp_sz` counts them.
    pub open spec fn comp_lists_ok(&self, num: int) -> bool {
        &&& self.comp_cells@.len() == num
        &&& self.curr_comp_sz@.len() == num
        &&& forall|ci: int|
            0 <= ci < num ==> (#[trigger] self.comp_cells@[ci])@ == members_below(
                self.curr_comp_id@,
                self.grid.cell_exists@,
                ci as usize,
                self.grid.n_cells(),
            ) && self.curr_comp_sz@[ci] == self.comp_cells@[ci]@.len()
    }

    /// Label the pieces under uncut edges into `curr_comp_id` and list
    /// their cells and sizes; the result is the number of pieces.
    fn assign_components(&mut self) -> (num: usize)
        requires
            old(self).grid.wf(),
            old(self).edges@.len() == old(self).grid.n_edges(),
        ensures
            final(self).comp_ids_ok(num as int),
            final(self).comp_lists_ok(num as int),
            num <= final(self).grid.n_cells(),
            *final(self) == (Solver {
                curr_comp_id: final(self).curr_comp_id,
                curr_comp_sz: final(self).curr_comp_sz,
                comp_cells: final(self).comp_cells,
                ..*old(self)
            }),
    {
        proof {
            lemma_wf_bounds(self.grid);
        }
        let n = self.grid.num_cells();
        let ghost s0 = *self;
        let (labels, num) = self.label_pieces(true);
        let mut ids: Vec<usize> = Vec::new();
        let mut c: usize = 0;
        while c < n
            invariant
                n == self.grid.n_cells(),
                labels@.len() == n,
                c <= n,
                ids@.len() == c,
                forall|x: int| 0 <= x < c ==> #[trigger] ids@[x] == match labels@[x] {
                    Some(l) => l,
                    None => usize::MAX,
                },
            decreases n - c,
        {
            let id = match labels[c] {
                Some(l) => l,
                None => usize::MAX,
            };
            ids.push(id);
            c = c + 1;
        }
        let mut sizes: Vec<usize> = Vec::new();
        let mut cells: Vec<Vec<CellId>> = Vec::new();
        let mut k: usize = 0;
        while k < num
            invariant
                k <= num,
                sizes@.len() == k,
                cells@.len() == k,
                forall|i: int| 0 <= i < k ==> #[trigger] sizes@[i] == 0 && cells@[i]@.len() == 0,
            decreases num - k,
        {
            let ghost z0 = sizes@;
            let ghost c0 = cells@;
            sizes.push(0);
            cells.push(Vec::new());
            proof {
                assert forall|i: int| 0 <= i < k + 1 implies #[trigger] sizes@[i] == 0 && cells@[i]@.len() == 0 by {
                    if i < k {
                        assert(sizes@[i] == z0[i]);
                        assert(cells@[i] == c0[i]);
                    }
                }
            }
            k = k + 1;
        }
        proof {
            assert forall|i: int| 0 <= i < num implies (#[trigger] cells@[i])@ =~= members_below(
                ids@,
                self.grid.cell_exists@,
                i as usize,
                0,
            ) by {
                assert(sizes@[i] == 0);
                assert(cells@[i]@.len() == 0);
            }
        }
        let mut c: usize = 0;
        while c < n
            invariant
                n == self.grid.n_cells(),
                self.grid.cell_exists@.len() == n,
                ids@.len() == n,
                forall|x: int| 0 <= x < n && self.grid.cell_exists@[x] ==> #[trigger] ids@[x] < num,
                c <= n,
                sizes@.len() == num,
                cells@.len() == num,
                forall|i: int|
                    0 <= i < num ==> (#[trigger] cells@[i])@ == members_below(ids@, self.grid.cell_exists@, i as usize, c as int)
                        && sizes@[i] == cells@[i]@.len(),
            decreases n - c,
        {
            if self.grid.cell_exists[c] {
                let ci = ids[c];
                proof {
                    lemma_members_bound(ids@, self.grid.cell_exists@, ci, c as int);
                }
                let ghost cells0 = cells@;
                let ghost sizes0 = sizes@;
                cells[ci].push(c);
                sizes.set(ci, sizes[ci] + 1);
                proof {
                    assert forall|i: int|
                        0 <= i < num implies (#[trigger] cells@[i])@ == members_below(
                        ids@,
                        self.grid.cell_exists@,
                        i as usize,
                        c + 1,
                    ) && sizes@[i] == cells@[i]@.len() by {
                        if i != ci as int {
                            assert(cells@[i] == cells0[i]);
                        }
                    }
                }
            }
            c = c + 1;
        }
        self.curr_comp_id = ids;
        self.curr_comp_sz = sizes;
        self.comp_cells = cells;
        proof {
            let l = labels@;
            assert forall|x: int| 0 <= x < n implies if self.grid.cell_exists@[x] {
                #[trigger] self.curr_comp_id@[x] < num
            } else {
                self.curr_comp_id@[x] == usize::MAX
            } by {
                assert(self.curr_comp_id@[x] == match l[x] {
                    Some(v) => v,
                    None => usize::MAX,
                });
            }
            assert forall|e: int|
                0 <= e < self.grid.n_edges() && #[trigger] self.joins_by(e, true) implies self.curr_comp_id@[self.grid.spec_edge_cells(e).0]
                    == self.curr_comp_id@[self.grid.spec_edge_cells(e).1] by {
                crate::edge_csp::grid::lemma_edge_cells_between(self.grid, e);
                let (a, b) = self.grid.spec_edge_cells(e);
                assert(s0.joins_by(e, true));
                assert(l[a] == l[b]);
                assert(self.curr_comp_id@[a] == match l[a] {
                    Some(v) => v,
                    None => usize::MAX,
                });
                assert(self.curr_comp_id@[b] == match l[b] {
                    Some(v) => v,
                    None => usize::MAX,
                });
            }
            assert forall|j: int| 0 <= j < num implies #[trigger] self.comp_seen(n - 1, j) by {
                assert(label_seen(l, n - 1, j));
                let d = choose|d: int| 0 <= d <= n - 1 && #[trigger] l[d] == Some(j as usize);
                assert(self.curr_comp_id@[d] == match l[d] {
                    Some(v) => v,
                    None => usize::MAX,
                });
            }
            assert forall|x: int, j: int|
                0 <= x < n && self.grid.cell_exists@[x] && 0 <= j <= self.curr_comp_id@[x] implies #[trigger] self.comp_seen(
                x,
                j,
            ) by {
                assert(self.curr_comp_id@[x] == match l[x] {
                    Some(v) => v,
                    None => usize::MAX,
                });
                assert(label_seen(l, x, j));
                let d = choose|d: int| 0 <= d <= x && #[trigger] l[d] == Some(j as usize);
                assert(self.curr_comp_id@[d] == match l[d] {
                    Some(v) => v,
                    None => usize::MAX,
                });
            }
        }
        num
    }
}


/// Cell `x` lies in the half-plane of direction `d` seen from cell `cell`
/// on a board `cols` wide: 0 north (rows above), 1 south (rows below),
/// 2 east (columns to the right), 3 west (columns to the left).
pub open spec fn in_half(cols: int, cell: int, x: int, d: int) -> bool {
    let (r, c) = (cell / cols, cell % cols);
    let (rx, cx) = (x / cols, x % cols);
    if d == 0 {
        rx < r
    } else if d == 1 {
        rx > r
    } else if d == 2 {
        cx > c
    } else {
        cx < c
    }
}

/// A direction count: the clue's, or 0 when the half-plane holds no cell.
pub open spec fn dir_known(v: Option<usize>, avail: int) -> Option<usize> {
    match v {
        Some(x) => Some(x),
        None => if avail == 0 {
            Some(0)
        } else {
            None
        },
    }
}

/// A direction's contribution to the upper bound: its count, or the cells
/// its half-plane can hold.
pub open spec fn dir_cap(v: Option<usize>, avail: int) -> int {
    match v {
        Some(x) => x as int,
        None => avail,
    }
}

pub open spec fn or_zero(v: Option<usize>) -> int {
    match v {
        Some(x) => x as int,
        None => 0,
    }
}

/// Area bounds `(min, max, exact)` of the piece holding a compass clue with
/// half-plane room `avail` (north, south, east, west).  A cell in a corner
/// quadrant counts in two directions, so the piece has at least
/// `1 + max(n + s, e + w)` cells and at most `1 +` the sum of the capped
/// directions; it is exact when one axis is pinned to 0 and the other known.
pub open spec fn compass_bounds(cp: CompassData, avail: Seq<int>) -> (int, int, Option<int>) {
    let n = dir_known(cp.n, avail[0]);
    let s = dir_known(cp.s, avail[1]);
    let e = dir_known(cp.e, avail[2]);
    let w = dir_known(cp.w, avail[3]);
    let (nv, sv, ev, wv) = (or_zero(n), or_zero(s), or_zero(e), or_zero(w));
    let lo = 1 + if nv + sv >= ev + wv {
        nv + sv
    } else {
        ev + wv
    };
    let exact = if e == Some(0usize) && w == Some(0usize) && n is Some && s is Some {
        Some(1 + nv + sv)
    } else if n == Some(0usize) && s == Some(0usize) && e is Some && w is Some {
        Some(1 + ev + wv)
    } else {
        None
    };
    let hi = 1 + dir_cap(n, avail[0]) + dir_cap(s, avail[1]) + dir_cap(e, avail[2]) + dir_cap(w, avail[3]);
    (lo, hi, exact)
}

/// The clue's counts are small enough for the bound arithmetic on a board
/// of `n` cells.
pub open spec fn compass_fits(cp: CompassData, n: int) -> bool {
    or_zero(cp.n) + or_zero(cp.s) + or_zero(cp.e) + or_zero(cp.w) + 4 * n + 1 <= usize::MAX
}

impl Solver {
    /// Existing cells below `k` in the half-plane `d` of `cell`.
    pub open spec fn half_count(&self, cell: int, d: int, k: int) -> int
        decreases k,
    {
        if k <= 0 {
            0
        } else {
            self.half_count(cell, d, k - 1) + if self.grid.cell_exists@[k - 1] && in_half(self.grid.cols as int, cell, k - 1, d) {
                1int
            } else {
                0int
            }
        }
    }

    /// The half-plane room of `cell`: existing cells to the north, south,
    /// east and west.
    pub open spec fn half_room(&self, cell: int) -> Seq<int> {
        let n = self.grid.n_cells();
        seq![self.half_count(cell, 0, n), self.half_count(cell, 1, n), self.half_count(cell, 2, n), self.half_count(cell, 3, n)]
    }

    /// Every compass clue fits the bound arithmetic.
    pub open spec fn compasses_fit(&self) -> bool {
        forall|i: int|
            0 <= i < self.cell_clues@.len() ==> match #[trigger] self.cell_clues@[i] {
                CellClue::Compass { compass, .. } => compass_fits(compass, self.grid.n_cells()),
                _ => true,
            }
    }

    /// The existing cells in each half-plane of `cell`.
    fn halfplane_avail(&self, cell: CellId) -> (r: [usize; 4])
        requires
            self.grid.wf(),
            cell < self.grid.n_cells(),
        ensures
            forall|d: int| 0 <= d < 4 ==> #[trigger] r[d] as int == self.half_room(cell as int)[d],
            forall|d: int| 0 <= d < 4 ==> #[trigger] r[d] <= self.grid.n_cells(),
    {
        proof {
            lemma_wf_bounds(self.grid);
        }
        let n = self.grid.num_cells();
        let cols = self.grid.cols;
        proof {
            if cols == 0 {
                assert(self.grid.rows * self.grid.cols == 0) by (nonlinear_arith)
                    requires
                        cols == 0,
                        cols == self.grid.cols,
                ;
            }
        }
        let (r, c) = self.grid.cell_pos(cell);
        let mut out: [usize; 4] = [0, 0, 0, 0];
        let mut x: usize = 0;
        while x < n
            invariant
                self.grid.wf(),
                n == self.grid.n_cells(),
                self.grid.cell_exists@.len() == n,
                cols == self.grid.cols,
                cols > 0,
                cell < n,
                r == cell / cols,
                c == cell % cols,
                x <= n,
                forall|d: int| 0 <= d < 4 ==> #[trigger] out[d] as int == self.half_count(cell as int, d, x as int),
                forall|d: int| 0 <= d < 4 ==> #[trigger] out[d] <= x,
            decreases n - x,
        {
            if self.grid.cell_exists[x] {
                let (rx, cx) = self.grid.cell_pos(x);
                let ghost o0 = out;
                if rx < r {
                    out[0] = out[0] + 1;
                }
                if rx > r {
                    out[1] = out[1] + 1;
                }
                if cx > c {
                    out[2] = out[2] + 1;
                }
                if cx < c {
                    out[3] = out[3] + 1;
                }
                proof {
                    assert forall|d: int| 0 <= d < 4 implies #[trigger] out[d] as int == self.half_count(cell as int, d, x + 1) by {
                        assert(self.half_count(cell as int, d, x + 1) == self.half_count(cell as int, d, x as int) + if in_half(
                            cols as int,
                            cell as int,
                            x as int,
                            d,
                        ) {
                            1int
                        } else {
                            0int
                        });
                    }
                }
            }
            x = x + 1;
        }
        out
    }

    /// Area bounds `(min, max, exact)` from the compass clue `compass` on
    /// `cell` (see `compass_bounds`).
    #[verifier::spinoff_prover]
    #[verifier::rlimit(40)]
    fn get_compass_area_bounds(&self, cell: CellId, compass: &CompassData) -> (r: (usize, usize, Option<usize>))
        requires
            self.grid.wf(),
            cell < self.grid.n_cells(),
            compass_fits(*compass, self.grid.n_cells()),
        ensures
            ({
                let (lo, hi, ex) = compass_bounds(*compass, self.half_room(cell as int));
                &&& r.0 as int == lo
                &&& r.1 as int == hi
                &&& match ex {
                    Some(x) => r.2 == Some(x as usize) && x == x as usize as int,
                    None => r.2 is None,
                }
            }),
    {
        let avail = self.halfplane_avail(cell);
        proof {
            assert(avail[0] as int == self.half_room(cell as int)[0]);
            assert(avail[1] as int == self.half_room(cell as int)[1]);
            assert(avail[2] as int == self.half_room(cell as int)[2]);
            assert(avail[3] as int == self.half_room(cell as int)[3]);
            assert(avail[0] <= self.grid.n_cells());
            assert(avail[1] <= self.grid.n_cells());
            assert(avail[2] <= self.grid.n_cells());
            assert(avail[3] <= self.grid.n_cells());
        }
        let n = match compass.n {
            Some(x) => Some(x),
            None => if avail[0] == 0 {
                Some(0)
            } else {
                None
            },
        };
        let s = match compass.s {
            Some(x) => Some(x),
            None => if avail[1] == 0 {
                Some(0)
            } else {
                None
            },
        };
        let e = match compass.e {
            Some(x) => Some(x),
            None => if avail[2] == 0 {
                Some(0)
            } else {
                None
            },
        };
        let w = match compass.w {
            Some(x) => Some(x),
            None => if avail[3] == 0 {
                Some(0)
            } else {
                None
            },
        };
        let nv = match n {
            Some(x) => x,
            None => 0,
        };
        let sv = match s {
            Some(x) => x,
            None => 0,
        };
        let ev = match e {
            Some(x) => x,
            None => 0,
        };
        let wv = match w {
            Some(x) => x,
            None => 0,
        };
        let min_area = 1 + if nv + sv >= ev + wv {
            nv + sv
        } else {
            ev + wv
        };
        let mut exact_area: Option<usize> = None;
        if e == Some(0usize) && w == Some(0usize) && n.is_some() && s.is_some() {
            exact_area = Some(1 + nv + sv);
        } else if n == Some(0usize) && s == Some(0usize) && e.is_some() && w.is_some() {
            exact_area = Some(1 + ev + wv);
        }
        let cn = match n {
            Some(x) => x,
            None => avail[0],
        };
        let cs = match s {
            Some(x) => x,
            None => avail[1],
        };
        let ce = match e {
            Some(x) => x,
            None => avail[2],
        };
        let cw = match w {
            Some(x) => x,
            None => avail[3],
        };
        let max_area = 1 + cn + cs + ce + cw;
        (min_area, max_area, exact_area)
    }
}


pub open spec fn max_int(a: int, b: int) -> int {
    if a >= b {
        a
    } else {
        b
    }
}

pub open spec fn min_int(a: int, b: int) -> int {
    if a <= b {
        a
    } else {
        b
    }
}

impl Solver {
    /// Clue indices name clues, one list per cell.
    pub open spec fn clue_index_ok(&self) -> bool {
        &&& self.cell_clues_indexed@.len() == self.grid.n_cells()
        &&& forall|c: int, k: int|
            0 <= c < self.grid.n_cells() && 0 <= k < self.cell_clues_indexed@[c]@.len() ==> #[trigger] self.cell_clues_indexed@[c]@[k]
                < self.cell_clues@.len()
    }

    /// One clue folded into the running area facts `(target, min, max)` of
    /// a piece; `None` on two different exact areas.
    pub open spec fn clue_step(&self, st: Option<(Option<usize>, int, int)>, clue: CellClue) -> Option<
        (Option<usize>, int, int),
    > {
        match st {
            None => None,
            Some((t, lo, hi)) => match clue {
                CellClue::Area { value, .. } => if t is Some && t.unwrap() != value {
                    None
                } else {
                    Some((Some(value), lo, hi))
                },
                CellClue::Compass { cell, compass } => {
                    let (cmin, cmax, cex) = compass_bounds(compass, self.half_room(cell as int));
                    if cex is Some && t is Some && t.unwrap() as int != cex.unwrap() {
                        None
                    } else {
                        Some(
                            (
                                if cex is Some {
                                    Some(cex.unwrap() as usize)
                                } else {
                                    t
                                },
                                max_int(lo, cmin),
                                min_int(hi, cmax),
                            ),
                        )
                    }
                },
                CellClue::Palisade { .. } => Some((t, lo, hi)),
            },
        }
    }

    /// The clues `idxs` folded in order.
    pub open spec fn clues_fold(&self, st: Option<(Option<usize>, int, int)>, idxs: Seq<usize>) -> Option<
        (Option<usize>, int, int),
    >
        decreases idxs.len(),
    {
        if idxs.len() == 0 {
            st
        } else {
            self.clue_step(self.clues_fold(st, idxs.drop_last()), self.cell_clues@[idxs.last() as int])
        }
    }

    /// The clues of the cells `cells` folded in order.
    pub open spec fn cells_fold(&self, st: Option<(Option<usize>, int, int)>, cells: Seq<CellId>) -> Option<
        (Option<usize>, int, int),
    >
        decreases cells.len(),
    {
        if cells.len() == 0 {
            st
        } else {
            self.clues_fold(self.cells_fold(st, cells.drop_last()), self.cell_clues_indexed@[cells.last() as int]@)
        }
    }

    /// The area facts of component `ci` from the clues on its cells: an
    /// area number fixes the target, a compass clue bounds the area (and
    /// fixes it when exact).  Fails on two different exact areas.
    fn compute_component_area_bounds(&self, ci: usize) -> (r: Result<(Option<usize>, usize, usize), ()>)
        requires
            self.grid.wf(),
            self.clue_index_ok(),
            self.cell_clues_in_range(),
            self.compasses_fit(),
            ci < self.comp_cells@.len(),
            ci < self.prop.curr_min_area@.len(),
            ci < self.prop.curr_max_area@.len(),
            forall|k: int| 0 <= k < self.comp_cells@[ci as int]@.len() ==> #[trigger] self.comp_cells@[ci as int]@[k] < self.grid.n_cells(),
        ensures
            ({
                let f = self.cells_fold(
                    Some((None, self.prop.curr_min_area@[ci as int] as int, self.prop.curr_max_area@[ci as int] as int)),
                    self.comp_cells@[ci as int]@,
                );
                match r {
                    Err(_) => f is None,
                    Ok((t, lo, hi)) => f == Some((t, lo as int, hi as int)),
                }
            }),
    {
        let ghost init = Some((None::<usize>, self.prop.curr_min_area@[ci as int] as int, self.prop.curr_max_area@[ci as int] as int));
        let ghost cells = self.comp_cells@[ci as int]@;
        let mut target_area: Option<usize> = None;
        let mut local_min = self.prop.curr_min_area[ci];
        let mut local_max = self.prop.curr_max_area[ci];
        let mut i: usize = 0;
        while i < self.comp_cells[ci].len()
            invariant
                self.grid.wf(),
                self.clue_index_ok(),
                self.cell_clues_in_range(),
                self.compasses_fit(),
                ci < self.comp_cells@.len(),
                ci < self.prop.curr_min_area@.len(),
                ci < self.prop.curr_max_area@.len(),
                cells == self.comp_cells@[ci as int]@,
                init == Some((None::<usize>, self.prop.curr_min_area@[ci as int] as int, self.prop.curr_max_area@[ci as int] as int)),
                forall|k: int| 0 <= k < cells.len() ==> #[trigger] cells[k] < self.grid.n_cells(),
                i <= cells.len(),
                self.cells_fold(init, cells.take(i as int)) == Some((target_area, local_min as int, local_max as int)),
            decreases cells.len() - i,
        {
            let c = self.comp_cells[ci][i];
            proof {
                assert(cells.take(i + 1).drop_last() == cells.take(i as int));
                assert(cells.take(i + 1).last() == c);
            }
            let ghost st0 = Some((target_area, local_min as int, local_max as int));
            let idxs = &self.cell_clues_indexed[c];
            proof {
                assert(self.cells_fold(init, cells.take(i + 1)) == self.clues_fold(st0, idxs@));
            }
            let mut j: usize = 0;
            while j < idxs.len()
                invariant
                    self.grid.wf(),
                    self.clue_index_ok(),
                    self.cell_clues_in_range(),
                    self.compasses_fit(),
                    c < self.grid.n_cells(),
                    idxs@ == self.cell_clues_indexed@[c as int]@,
                    ci < self.comp_cells@.len(),
                    ci < self.prop.curr_min_area@.len(),
                    ci < self.prop.curr_max_area@.len(),
                    cells == self.comp_cells@[ci as int]@,
                    init == Some((None::<usize>, self.prop.curr_min_area@[ci as int] as int, self.prop.curr_max_area@[ci as int] as int)),
                    i < cells.len(),
                    self.cells_fold(init, cells.take(i + 1)) == self.clues_fold(st0, idxs@),
                    j <= idxs@.len(),
                    self.clues_fold(st0, idxs@.take(j as int)) == Some((target_area, local_min as int, local_max as int)),
                decreases idxs@.len() - j,
            {
                let k = idxs[j];
                proof {
                    assert(idxs@.take(j + 1).drop_last() == idxs@.take(j as int));
                    assert(idxs@.take(j + 1).last() == k);
                    assert(k < self.cell_clues@.len());
                }
                let clue = self.cell_clues[k];
                match clue {
                    CellClue::Area { value, .. } => {
                        if let Some(prev) = target_area {
                            if prev != value {
                                proof {
                                    assert(self.clues_fold(st0, idxs@.take(j + 1)) is None);
                                    self.lemma_clues_fold_none(st0, idxs@, j + 1);
                                    self.lemma_cells_fold_none(init, cells, i + 1);
                                }
                                return Err(());
                            }
                        }
                        target_area = Some(value);
                    },
                    CellClue::Compass { cell, compass } => {
                        proof {
                            assert(clue_cell(self.cell_clues@[k as int]) < self.grid.n_cells());
                            assert(compass_fits(compass, self.grid.n_cells()));
                        }
                        let (cmin, cmax, cexact) = self.get_compass_area_bounds(cell, &compass);
                        if let Some(exact) = cexact {
                            if let Some(prev) = target_area {
                                if prev != exact {
                                    proof {
                                        assert(self.clues_fold(st0, idxs@.take(j + 1)) is None);
                                        self.lemma_clues_fold_none(st0, idxs@, j + 1);
                                        self.lemma_cells_fold_none(init, cells, i + 1);
                                    }
                                    return Err(());
                                }
                            }
                            target_area = Some(exact);
                        }
                        if cmin > local_min {
                            local_min = cmin;
                        }
                        if cmax < local_max {
                            local_max = cmax;
                        }
                    },
                    CellClue::Palisade { .. } => {},
                }
                j = j + 1;
            }
            proof {
                assert(idxs@.take(j as int) == idxs@);
            }
            i = i + 1;
        }
        proof {
            assert(cells.take(i as int) == cells);
        }
        Ok((target_area, local_min, local_max))
    }

    /// A clash stays a clash through the rest of a cell's clues.
    proof fn lemma_clues_fold_none(&self, st: Option<(Option<usize>, int, int)>, idxs: Seq<usize>, j: int)
        requires
            0 <= j <= idxs.len(),
            self.clues_fold(st, idxs.take(j)) is None,
        ensures
            self.clues_fold(st, idxs) is None,
        decreases idxs.len() - j,
    {
        if j < idxs.len() {
            assert(idxs.take(j + 1).drop_last() == idxs.take(j));
            self.lemma_clues_fold_none(st, idxs, j + 1);
        } else {
            assert(idxs.take(j) == idxs);
        }
    }

    proof fn lemma_clues_from_none(&self, idxs: Seq<usize>)
        ensures
            self.clues_fold(None, idxs) is None,
        decreases idxs.len(),
    {
        if idxs.len() > 0 {
            self.lemma_clues_from_none(idxs.drop_last());
        }
    }

    /// A clash stays a clash through the rest of the cells.
    proof fn lemma_cells_fold_none(&self, st: Option<(Option<usize>, int, int)>, cells: Seq<CellId>, i: int)
        requires
            0 <= i <= cells.len(),
            self.cells_fold(st, cells.take(i)) is None,
        ensures
            self.cells_fold(st, cells) is None,
        decreases cells.len() - i,
    {
        if i < cells.len() {
            assert(cells.take(i + 1).drop_last() == cells.take(i));
            self.lemma_clues_from_none(self.cell_clues_indexed@[cells.take(i + 1).last() as int]@);
            self.lemma_cells_fold_none(st, cells, i + 1);
        } else {
            assert(cells.take(i) == cells);
        }
    }
}


/// The indices `i < k` with `flags[i] == want`, ascending.
pub open spec fn flagged(flags: Seq<bool>, want: bool, k: int) -> Seq<usize>
    decreases k,
{
    if k <= 0 {
        Seq::empty()
    } else {
        let p = flagged(flags, want, k - 1);
        if flags[k - 1] == want {
            p.push((k - 1) as usize)
        } else {
            p
        }
    }
}

impl Solver {
    /// Everything the component build leaves alone is as in `other`.
    pub open spec fn comp_frame(&self, other: &Self) -> bool {
        &&& self.grid == other.grid
        &&& self.cell_clues == other.cell_clues
        &&& self.edge_clues == other.edge_clues
        &&& self.vertex_clues == other.vertex_clues
        &&& self.rules == other.rules
        &&& self.eff_min_area == other.eff_min_area
        &&& self.eff_max_area == other.eff_max_area
        &&& self.total_cells == other.total_cells
        &&& self.node_count == other.node_count
        &&& self.q_buf == other.q_buf
        &&& self.visited_buf == other.visited_buf
        &&& self.in_probing == other.in_probing
        &&& self.has_compass_clue == other.has_compass_clue
        &&& self.has_palisade_clue == other.has_palisade_clue
        &&& self.prop.diff_clues == other.prop.diff_clues
        &&& self.prop.compass_clue_indices == other.prop.compass_clue_indices
        &&& self.growth_edge_count == other.growth_edge_count
        &&& self.watchtower_vertices == other.watchtower_vertices
        &&& self.cell_clues_indexed == other.cell_clues_indexed
        &&& self.deadline == other.deadline
        &&& self.timed_out == other.timed_out
        &&& self.pre_marked == other.pre_marked
        &&& self.is_pre_cut == other.is_pre_cut
    }

    /// The area facts of component `ci` once its clues are folded in:
    /// `(target, min, max)`, or `None` when the component already breaks
    /// them.  A target must lie within the bounds and hold the component;
    /// otherwise the bounds must be ordered and hold it, meeting bounds
    /// become the target, and a component over the board-wide maximum is
    /// refused.
    pub open spec fn comp_area(&self, ci: int) -> Option<(Option<usize>, int, int)> {
        let f = self.cells_fold(
            Some(
                (
                    None::<usize>,
                    if self.eff_min_area >= 1 {
                        self.eff_min_area as int
                    } else {
                        1
                    },
                    self.eff_max_area as int,
                ),
            ),
            self.comp_cells@[ci]@,
        );
        let sz = self.curr_comp_sz@[ci] as int;
        match f {
            None => None,
            Some((t, lo, hi)) => match t {
                Some(a0) => if a0 < lo || a0 > hi || sz > a0 {
                    None
                } else {
                    Some((Some(a0), a0 as int, a0 as int))
                },
                None => if lo > hi || sz > hi {
                    None
                } else if lo == hi {
                    Some((Some(lo as usize), lo, hi))
                } else if sz > self.eff_max_area {
                    None
                } else {
                    Some((None, lo, hi))
                },
            },
        }
    }

    /// What the growth pass does with edge `e` (given the edge states
    /// `edges` before it): 0 nothing; 1 cut, the two components cannot
    /// merge (different targets, or together over a maximum); 2 a growth
    /// edge of both; 3 a growth edge that is also cut, one side being full.
    /// Only undecided edges between existing cells of different components
    /// are touched.
    pub open spec fn growth_kind(&self, edges: Seq<EdgeState>, e: int) -> int {
        let (a, b) = self.grid.spec_edge_cells(e);
        let ci1 = self.curr_comp_id@[a] as int;
        let ci2 = self.curr_comp_id@[b] as int;
        let t1 = self.curr_target_area@[ci1];
        let t2 = self.curr_target_area@[ci2];
        let sz1 = self.curr_comp_sz@[ci1] as int;
        let sz2 = self.curr_comp_sz@[ci2] as int;
        let m1 = self.prop.curr_max_area@[ci1] as int;
        let m2 = self.prop.curr_max_area@[ci2] as int;
        if edges[e] != EdgeState::Unknown || !self.grid.cell_exists@[a] || !self.grid.cell_exists@[b] || ci1 == ci2 {
            0
        } else if t1 is Some && t2 is Some && t1 != t2 {
            1
        } else if sz1 + sz2 > m1 || sz1 + sz2 > m2 {
            1
        } else if sz1 >= m1 || sz2 >= m2 {
            3
        } else {
            2
        }
    }

    /// Edge `e` is a growth edge of component `ci`.
    pub open spec fn grows_at(&self, edges: Seq<EdgeState>, e: int, ci: int) -> bool {
        let (a, b) = self.grid.spec_edge_cells(e);
        (self.growth_kind(edges, e) == 2 || self.growth_kind(edges, e) == 3) && (self.curr_comp_id@[a] == ci
            || self.curr_comp_id@[b] == ci)
    }

    /// The growth edges `e < k` of component `ci`, ascending.
    pub open spec fn growth_list(&self, edges: Seq<EdgeState>, ci: int, k: int) -> Seq<EdgeId>
        decreases k,
    {
        if k <= 0 {
            Seq::empty()
        } else {
            let p = self.growth_list(edges, ci, k - 1);
            if self.grows_at(edges, k - 1, ci) {
                p.push((k - 1) as usize)
            } else {
                p
            }
        }
    }

    /// The edge states after the growth pass over the edges `e < k`.
    pub open spec fn growth_cut(&self, edges: Seq<EdgeState>, k: int) -> Seq<EdgeState> {
        Seq::new(
            edges.len(),
            |e: int|
                if e < k && (self.growth_kind(edges, e) == 1 || self.growth_kind(edges, e) == 3) {
                    EdgeState::Cut
                } else {
                    edges[e]
                },
        )
    }

    /// The component data the growth pass reads is in place for `num`
    /// components.
    pub open spec fn comps_ready(&self, num: int) -> bool {
        &&& self.comp_ids_ok(num)
        &&& self.curr_comp_sz@.len() == num
        &&& self.curr_target_area@.len() == num
        &&& self.prop.curr_max_area@.len() == num
        &&& forall|ci: int| 0 <= ci < num ==> #[trigger] self.curr_comp_sz@[ci] <= self.grid.n_cells()
    }

    /// Growth-edge pass: for every undecided edge between existing cells of
    /// different components, cut it when the two cannot merge (different
    /// targets, or their sizes together exceed a maximum); otherwise record
    /// it as a growth edge of both (marking both growing), and cut it as
    /// well when either side already has its maximum size.
    fn build_components_growth_edges(&mut self, num_comp: usize) -> (r: Result<(), ()>)
        requires
            old(self).trail_ok(),
            old(self).comps_ready(num_comp as int),
        ensures
            r is Ok,
            final(self).trail_ok(),
            final(self).comp_frame(&*old(self)),
            final(self).curr_comp_id == old(self).curr_comp_id,
            final(self).curr_comp_sz == old(self).curr_comp_sz,
            final(self).comp_cells == old(self).comp_cells,
            final(self).curr_target_area == old(self).curr_target_area,
            final(self).prop.curr_min_area == old(self).prop.curr_min_area,
            final(self).prop.curr_max_area == old(self).prop.curr_max_area,
            final(self).prop.growing_list == old(self).prop.growing_list,
            final(self).prop.sealed_list == old(self).prop.sealed_list,
            final(self).prop.comp_buf == old(self).prop.comp_buf,
            final(self).prop.id_map_buf == old(self).prop.id_map_buf,
            final(self).prop.pot_buf == old(self).prop.pot_buf,
            final(self).edges@ == old(self).growth_cut(old(self).edges@, old(self).edges@.len() as int),
            final(self).can_grow_buf@.len() == num_comp,
            forall|ci: int|
                0 <= ci < num_comp ==> #[trigger] final(self).can_grow_buf@[ci] == exists|e: int|
                    0 <= e < old(self).edges@.len() && #[trigger] old(self).grows_at(old(self).edges@, e, ci),
            final(self).prop.growth_edges@.len() == num_comp,
            forall|ci: int|
                0 <= ci < num_comp ==> (#[trigger] final(self).prop.growth_edges@[ci])@ == old(self).growth_list(
                    old(self).edges@,
                    ci,
                    old(self).edges@.len() as int,
                ),
            final(self).build_progress == (old(self).build_progress || exists|e: int|
                0 <= e < old(self).edges@.len() && (#[trigger] old(self).growth_kind(old(self).edges@, e) == 1
                    || old(self).growth_kind(old(self).edges@, e) == 3)),
    {
        proof {
            lemma_wf_bounds(self.grid);
        }
        let ghost s0 = *self;
        let ghost e0 = self.edges@;
        let mut can_grow: Vec<bool> = Vec::new();
        let mut lists: Vec<Vec<EdgeId>> = Vec::new();
        let mut k: usize = 0;
        while k < num_comp
            invariant
                k <= num_comp,
                can_grow@.len() == k,
                lists@.len() == k,
                forall|i: int| 0 <= i < k ==> !#[trigger] can_grow@[i] && lists@[i]@.len() == 0,
            decreases num_comp - k,
        {
            can_grow.push(false);
            lists.push(Vec::new());
            k = k + 1;
        }
        proof {
            assert forall|ci: int| 0 <= ci < num_comp implies (#[trigger] lists@[ci])@ =~= s0.growth_list(e0, ci, 0) by {
                assert(!can_grow@[ci]);
            }
        }
        let ne = self.grid.num_edges();
        let mut e: usize = 0;
        while e < ne
            invariant
                self.trail_ok(),
                self.same_context(&s0),
                self.pre_marked == s0.pre_marked,
                self.is_pre_cut == s0.is_pre_cut,
                self.build_progress == s0.build_progress || (self.build_progress && exists|x: int|
                    0 <= x < e && (#[trigger] s0.growth_kind(e0, x) == 1 || s0.growth_kind(e0, x) == 3)),
                self.build_progress ==> (s0.build_progress || exists|x: int|
                    0 <= x < e && (#[trigger] s0.growth_kind(e0, x) == 1 || s0.growth_kind(e0, x) == 3)),
                (exists|x: int| 0 <= x < e && (#[trigger] s0.growth_kind(e0, x) == 1 || s0.growth_kind(e0, x) == 3)) ==> self.build_progress,
                s0.trail_ok(),
                s0.comps_ready(num_comp as int),
                e0 == s0.edges@,
                ne == s0.grid.n_edges(),
                e <= ne,
                self.edges@ == s0.growth_cut(e0, e as int),
                can_grow@.len() == num_comp,
                lists@.len() == num_comp,
                forall|ci: int|
                    0 <= ci < num_comp ==> #[trigger] can_grow@[ci] == exists|x: int|
                        0 <= x < e && #[trigger] s0.grows_at(e0, x, ci),
                forall|ci: int| 0 <= ci < num_comp ==> (#[trigger] lists@[ci])@ == s0.growth_list(e0, ci, e as int),
            decreases ne - e,
        {
            proof {
                lemma_wf_bounds(self.grid);
            }
            let ghost kind = s0.growth_kind(e0, e as int);
            let ghost cur = self.edges@;
            proof {
                assert(cur[e as int] == e0[e as int]);
            }
            let ghost cg0 = can_grow@;
            let ghost l0 = lists@;
            if self.edges[e] == EdgeState::Unknown {
                let (c1, c2) = self.grid.edge_cells(e);
                if self.grid.cell_exists[c1] && self.grid.cell_exists[c2] {
                    let ci1 = self.curr_comp_id[c1];
                    let ci2 = self.curr_comp_id[c2];
                    if ci1 != ci2 {
                        let cannot_merge = match (self.curr_target_area[ci1], self.curr_target_area[ci2]) {
                            (Some(a1), Some(a2)) => a1 != a2,
                            _ => false,
                        };
                        let sum_sz = self.curr_comp_sz[ci1] + self.curr_comp_sz[ci2];
                        if cannot_merge || sum_sz > self.prop.curr_max_area[ci1] || sum_sz > self.prop.curr_max_area[ci2] {
                            let ok = self.set_edge(e, EdgeState::Cut);
                            self.build_progress = true;
                        } else {
                            can_grow.set(ci1, true);
                            can_grow.set(ci2, true);
                            lists[ci1].push(e);
                            lists[ci2].push(e);
                            let limit1 = self.prop.curr_max_area[ci1];
                            let limit2 = self.prop.curr_max_area[ci2];
                            if self.curr_comp_sz[ci1] >= limit1 || self.curr_comp_sz[ci2] >= limit2 {
                                let ok = self.set_edge(e, EdgeState::Cut);
                                self.build_progress = true;
                            }
                        }
                    }
                }
            }
            proof {
                assert forall|x: int| 0 <= x < self.edges@.len() implies #[trigger] self.edges@[x] == s0.growth_cut(e0, e + 1)[x] by {
                    if x != e as int {
                        assert(s0.growth_cut(e0, e + 1)[x] == s0.growth_cut(e0, e as int)[x]);
                    }
                }
                assert(self.edges@ =~= s0.growth_cut(e0, e + 1));
                assert forall|ci: int|
                    0 <= ci < num_comp implies #[trigger] can_grow@[ci] == exists|x: int|
                        0 <= x < e + 1 && #[trigger] s0.grows_at(e0, x, ci) by {
                    if s0.grows_at(e0, e as int, ci) {
                        assert(can_grow@[ci]);
                    } else {
                        assert(can_grow@[ci] == cg0[ci]);
                        if exists|x: int| 0 <= x < e + 1 && #[trigger] s0.grows_at(e0, x, ci) {
                            let x = choose|x: int| 0 <= x < e + 1 && #[trigger] s0.grows_at(e0, x, ci);
                            assert(x < e);
                        }
                    }
                }
                assert forall|ci: int| 0 <= ci < num_comp implies (#[trigger] lists@[ci])@ == s0.growth_list(e0, ci, e + 1) by {
                    if !s0.grows_at(e0, e as int, ci) {
                        assert(lists@[ci] == l0[ci]);
                    }
                }
                if kind == 1 || kind == 3 {
                    assert(s0.growth_kind(e0, e as int) == 1 || s0.growth_kind(e0, e as int) == 3);
                }
            }
            e = e + 1;
        }
        self.can_grow_buf = can_grow;
        self.prop.growth_edges = lists;
        Ok(())
    }
}


impl Solver {
    /// Rebuild the component cache from the uncut edges: label the pieces
    /// (`curr_comp_id`, `curr_comp_sz`, `comp_cells`), give each its area
    /// facts from its clues (see `comp_area`; the first component that
    /// breaks them fails the build, with the edges untouched), then run the
    /// growth-edge pass (see `growth_kind`) and list the growing and sealed
    /// components.  The result is the number of components.
    #[verifier::rlimit(80)]
    pub fn build_components(&mut self) -> (r: Result<usize, ()>)
        requires
            old(self).trail_ok(),
            old(self).clue_index_ok(),
            old(self).cell_clues_in_range(),
            old(self).compasses_fit(),
        ensures
            final(self).trail_ok(),
            final(self).comp_frame(&*old(self)),
            final(self).comp_ids_ok(final(self).comp_cells@.len() as int),
            final(self).comp_lists_ok(final(self).comp_cells@.len() as int),
            r is Err <==> exists|ci: int|
                0 <= ci < final(self).comp_cells@.len() && #[trigger] final(self).comp_area(ci) is None,
            r is Err ==> final(self).edges@ == old(self).edges@,
            r matches Ok(num) ==> {
                &&& num == final(self).comp_cells@.len()
                &&& final(self).curr_target_area@.len() == num
                &&& final(self).prop.curr_min_area@.len() == num
                &&& final(self).prop.curr_max_area@.len() == num
                &&& forall|ci: int|
                    0 <= ci < num ==> #[trigger] final(self).comp_area(ci) == Some(
                        (
                            final(self).curr_target_area@[ci],
                            final(self).prop.curr_min_area@[ci] as int,
                            final(self).prop.curr_max_area@[ci] as int,
                        ),
                    )
                &&& final(self).edges@ == final(self).growth_cut(old(self).edges@, old(self).edges@.len() as int)
                &&& final(self).can_grow_buf@.len() == num
                &&& forall|ci: int|
                    0 <= ci < num ==> #[trigger] final(self).can_grow_buf@[ci] == exists|e: int|
                        0 <= e < old(self).edges@.len() && #[trigger] final(self).grows_at(old(self).edges@, e, ci)
                &&& final(self).prop.growth_edges@.len() == num
                &&& forall|ci: int|
                    0 <= ci < num ==> (#[trigger] final(self).prop.growth_edges@[ci])@ == final(self).growth_list(
                        old(self).edges@,
                        ci,
                        old(self).edges@.len() as int,
                    )
                &&& final(self).build_progress == exists|e: int|
                    0 <= e < old(self).edges@.len() && (#[trigger] final(self).growth_kind(old(self).edges@, e) == 1
                        || final(self).growth_kind(old(self).edges@, e) == 3)
                &&& final(self).prop.growing_list@ == flagged(final(self).can_grow_buf@, true, num as int)
                &&& final(self).prop.sealed_list@ == flagged(final(self).can_grow_buf@, false, num as int)
            },
    {
        let num = self.assign_components();
        proof {
            lemma_wf_bounds(self.grid);
        }
        let init_min = if self.eff_min_area >= 1 {
            self.eff_min_area
        } else {
            1
        };
        let mut targets: Vec<Option<usize>> = Vec::new();
        let mut mins: Vec<usize> = Vec::new();
        let mut maxs: Vec<usize> = Vec::new();
        let mut k: usize = 0;
        while k < num
            invariant
                k <= num,
                targets@.len() == k,
                mins@.len() == k,
                maxs@.len() == k,
                forall|i: int| 0 <= i < k ==> #[trigger] targets@[i] is None && mins@[i] == init_min && maxs@[i] == self.eff_max_area,
            decreases num - k,
        {
            let ghost t0 = targets@;
            let ghost m0 = mins@;
            let ghost x0 = maxs@;
            targets.push(None);
            mins.push(init_min);
            maxs.push(self.eff_max_area);
            proof {
                assert forall|i: int| 0 <= i < k + 1 implies #[trigger] targets@[i] is None && mins@[i] == init_min && maxs@[i]
                    == self.eff_max_area by {
                    if i < k {
                        assert(targets@[i] == t0[i]);
                        assert(mins@[i] == m0[i]);
                        assert(maxs@[i] == x0[i]);
                    }
                }
            }
            k = k + 1;
        }
        let ghost s_ids = *self;
        self.curr_target_area = targets;
        self.prop.curr_min_area = mins;
        self.prop.curr_max_area = maxs;
        let ghost s1 = *self;
        proof {
            self.lemma_ids_frame(s_ids, num as int);
        }
        let mut ci: usize = 0;
        while ci < num
            invariant
                self.trail_ok(),
                self.comp_frame(&*old(self)),
                self.edges == old(self).edges,
                self.curr_comp_id == s1.curr_comp_id,
                self.curr_comp_sz == s1.curr_comp_sz,
                self.comp_cells == s1.comp_cells,
                self.comp_ids_ok(num as int),
                self.comp_lists_ok(num as int),
                num <= self.grid.n_cells(),
                self.clue_index_ok(),
                self.cell_clues_in_range(),
                self.compasses_fit(),
                ci <= num,
                self.curr_target_area@.len() == num,
                self.prop.curr_min_area@.len() == num,
                self.prop.curr_max_area@.len() == num,
                init_min as int == (if self.eff_min_area >= 1 {
                    self.eff_min_area as int
                } else {
                    1
                }),
                forall|j: int|
                    ci <= j < num ==> #[trigger] self.curr_target_area@[j] is None && self.prop.curr_min_area@[j] == init_min
                        && self.prop.curr_max_area@[j] == self.eff_max_area,
                forall|j: int|
                    0 <= j < ci ==> #[trigger] self.comp_area(j) == Some(
                        (
                            self.curr_target_area@[j],
                            self.prop.curr_min_area@[j] as int,
                            self.prop.curr_max_area@[j] as int,
                        ),
                    ),
                forall|j: int| 0 <= j < ci ==> #[trigger] self.curr_target_area@[j] is Some ==> self.curr_target_area@[j].unwrap()
                    <= self.prop.curr_max_area@[j],
            decreases num - ci,
        {
            proof {
                assert(self.curr_target_area@[ci as int] is None);
                assert forall|k2: int| 0 <= k2 < self.comp_cells@[ci as int]@.len() implies #[trigger] self.comp_cells@[ci as int]@[k2]
                    < self.grid.n_cells() by {
                    crate::edge_csp::components::lemma_members_bound(
                        self.curr_comp_id@,
                        self.grid.cell_exists@,
                        ci,
                        self.grid.n_cells(),
                    );
                }
            }
            let res = self.compute_component_area_bounds(ci);
            let (target_area, local_min, local_max) = match res {
                Err(_) => {
                    proof {
                        assert(self.comp_area(ci as int) is None);
                    }
                    return Err(());
                },
                Ok(x) => x,
            };
            let sz = self.curr_comp_sz[ci];
            let ghost sb = *self;
            let ghost a0 = self.curr_target_area@;
            let ghost n0 = self.prop.curr_min_area@;
            let ghost x0 = self.prop.curr_max_area@;
            if let Some(a) = target_area {
                if a < local_min || a > local_max {
                    proof {
                        assert(self.comp_area(ci as int) is None);
                    }
                    return Err(());
                }
                if sz > a {
                    proof {
                        assert(self.comp_area(ci as int) is None);
                    }
                    return Err(());
                }
                self.curr_target_area.set(ci, Some(a));
                self.prop.curr_min_area.set(ci, a);
                self.prop.curr_max_area.set(ci, a);
            } else {
                if local_min > local_max || sz > local_max {
                    proof {
                        assert(self.comp_area(ci as int) is None);
                    }
                    return Err(());
                }
                if local_min != local_max && sz > self.eff_max_area {
                    proof {
                        assert(self.comp_area(ci as int) is None);
                    }
                    return Err(());
                }
                self.prop.curr_min_area.set(ci, local_min);
                self.prop.curr_max_area.set(ci, local_max);
                if local_min == local_max {
                    self.curr_target_area.set(ci, Some(local_min));
                }
            }
            proof {
                self.lemma_ids_frame(sb, num as int);
                assert forall|j: int|
                    0 <= j < ci + 1 implies #[trigger] self.comp_area(j) == Some(
                        (
                            self.curr_target_area@[j],
                            self.prop.curr_min_area@[j] as int,
                            self.prop.curr_max_area@[j] as int,
                        ),
                    ) by {
                    self.lemma_area_frame(sb, j);
                    if j < ci {
                        assert(self.curr_target_area@[j] == a0[j]);
                        assert(self.prop.curr_min_area@[j] == n0[j]);
                        assert(self.prop.curr_max_area@[j] == x0[j]);
                    }
                }
                assert forall|j: int| 0 <= j < ci + 1 implies #[trigger] self.curr_target_area@[j] is Some ==> self.curr_target_area@[j].unwrap()
                    <= self.prop.curr_max_area@[j] by {
                    if j < ci {
                        assert(self.curr_target_area@[j] == a0[j]);
                        assert(self.prop.curr_max_area@[j] == x0[j]);
                    }
                }
                assert forall|j: int|
                    ci + 1 <= j < num implies #[trigger] self.curr_target_area@[j] is None && self.prop.curr_min_area@[j] == init_min
                        && self.prop.curr_max_area@[j] == self.eff_max_area by {
                    assert(self.curr_target_area@[j] == a0[j]);
                    assert(self.prop.curr_min_area@[j] == n0[j]);
                    assert(self.prop.curr_max_area@[j] == x0[j]);
                }
            }
            ci = ci + 1;
        }
        proof {
            assert forall|c: int| 0 <= c < num implies #[trigger] self.curr_comp_sz@[c] <= self.grid.n_cells() by {
                assert(self.comp_cells@[c]@ == members_below(
                    self.curr_comp_id@,
                    self.grid.cell_exists@,
                    c as usize,
                    self.grid.n_cells(),
                ));
                crate::edge_csp::components::lemma_members_bound(
                    self.curr_comp_id@,
                    self.grid.cell_exists@,
                    c as usize,
                    self.grid.n_cells(),
                );
            }
        }
        let ghost s_end = *self;
        self.build_progress = false;
        proof {
            self.lemma_ids_frame(s_end, num as int);
        }
        let ghost s2 = *self;
        let _ = self.build_components_growth_edges(num);
        let mut growing: Vec<usize> = Vec::new();
        let mut sealed: Vec<usize> = Vec::new();
        let mut ci: usize = 0;
        while ci < num
            invariant
                ci <= num,
                self.can_grow_buf@.len() == num,
                growing@ == flagged(self.can_grow_buf@, true, ci as int),
                sealed@ == flagged(self.can_grow_buf@, false, ci as int),
            decreases num - ci,
        {
            if self.can_grow_buf[ci] {
                growing.push(ci);
            } else {
                sealed.push(ci);
            }
            ci = ci + 1;
        }
        self.prop.growing_list = growing;
        self.prop.sealed_list = sealed;
        proof {
            assert forall|e: int| 0 <= e < self.edges@.len() && self.edges@[e] == EdgeState::Uncut implies s2.edges@[e]
                == EdgeState::Uncut by {
                assert(self.edges@[e] == s2.growth_cut(s2.edges@, s2.edges@.len() as int)[e]);
            }
            self.lemma_ids_frame(s2, num as int);
            assert forall|c: int| 0 <= c < num implies #[trigger] self.comp_area(c) == Some(
                (
                    self.curr_target_area@[c],
                    self.prop.curr_min_area@[c] as int,
                    self.prop.curr_max_area@[c] as int,
                ),
            ) by {
                self.lemma_area_frame(s_end, c);
                assert(s_end.comp_area(c) == Some(
                    (
                        s_end.curr_target_area@[c],
                        s_end.prop.curr_min_area@[c] as int,
                        s_end.prop.curr_max_area@[c] as int,
                    ),
                ));
            }
            assert forall|e: int| 0 <= e < old(self).edges@.len() implies #[trigger] s2.growth_kind(old(self).edges@, e)
                == self.growth_kind(old(self).edges@, e) by {
            }
            assert(self.growth_cut(old(self).edges@, old(self).edges@.len() as int) =~= s2.growth_cut(
                old(self).edges@,
                old(self).edges@.len() as int,
            ));
            assert forall|c: int, e: int| 0 <= c < num && 0 <= e < old(self).edges@.len() implies #[trigger] s2.grows_at(
                old(self).edges@,
                e,
                c,
            ) == self.grows_at(old(self).edges@, e, c) by {
            }
            assert forall|c: int| 0 <= c < num implies (#[trigger] self.prop.growth_edges@[c])@ == self.growth_list(
                old(self).edges@,
                c,
                old(self).edges@.len() as int,
            ) by {
                self.lemma_growth_list_same(s2, old(self).edges@, c, old(self).edges@.len() as int);
            }
            assert forall|c: int| 0 <= c < num implies #[trigger] self.can_grow_buf@[c] == exists|e: int|
                0 <= e < old(self).edges@.len() && #[trigger] self.grows_at(old(self).edges@, e, c) by {
                if self.can_grow_buf@[c] {
                    let e = choose|e: int| 0 <= e < old(self).edges@.len() && #[trigger] s2.grows_at(old(self).edges@, e, c);
                    assert(self.grows_at(old(self).edges@, e, c));
                }
                if exists|e: int| 0 <= e < old(self).edges@.len() && #[trigger] self.grows_at(old(self).edges@, e, c) {
                    let e = choose|e: int| 0 <= e < old(self).edges@.len() && #[trigger] self.grows_at(old(self).edges@, e, c);
                    assert(s2.grows_at(old(self).edges@, e, c));
                }
            }
            if self.build_progress {
                let e = choose|e: int|
                    0 <= e < old(self).edges@.len() && (#[trigger] s2.growth_kind(old(self).edges@, e) == 1
                        || s2.growth_kind(old(self).edges@, e) == 3);
                assert(self.growth_kind(old(self).edges@, e) == s2.growth_kind(old(self).edges@, e));
            }
            if exists|e: int|
                0 <= e < old(self).edges@.len() && (#[trigger] self.growth_kind(old(self).edges@, e) == 1
                    || self.growth_kind(old(self).edges@, e) == 3) {
                let e = choose|e: int|
                    0 <= e < old(self).edges@.len() && (#[trigger] self.growth_kind(old(self).edges@, e) == 1
                        || self.growth_kind(old(self).edges@, e) == 3);
                assert(s2.growth_kind(old(self).edges@, e) == self.growth_kind(old(self).edges@, e));
            }
        }
        Ok(num)
    }

    /// The component labelling facts depend only on the grid, the edges and
    /// the labels.
    proof fn lemma_ids_frame(&self, other: Self, num: int)
        requires
            self.grid == other.grid,
            self.edges@.len() == other.edges@.len(),
            self.edges@.len() == self.grid.n_edges(),
            forall|e: int| 0 <= e < self.edges@.len() && self.edges@[e] == EdgeState::Uncut ==> other.edges@[e] == EdgeState::Uncut,
            self.curr_comp_id == other.curr_comp_id,
            other.comp_ids_ok(num),
        ensures
            self.comp_ids_ok(num),
    {
        assert forall|e: int| 0 <= e < self.grid.n_edges() && #[trigger] self.joins_by(e, true) implies self.curr_comp_id@[self.grid.spec_edge_cells(e).0]
            == self.curr_comp_id@[self.grid.spec_edge_cells(e).1] by {
            assert(other.joins_by(e, true));
        }
        assert forall|j: int| 0 <= j < num implies #[trigger] self.comp_seen(self.grid.n_cells() - 1, j) by {
            assert(other.comp_seen(other.grid.n_cells() - 1, j));
            let d = choose|d: int|
                0 <= d <= other.grid.n_cells() - 1 && other.grid.cell_exists@[d] && #[trigger] other.curr_comp_id@[d] == j as usize;
            assert(self.curr_comp_id@[d] == j as usize);
        }
        assert forall|c: int, j: int|
            0 <= c < self.grid.n_cells() && self.grid.cell_exists@[c] && 0 <= j <= self.curr_comp_id@[c] implies #[trigger] self.comp_seen(
            c,
            j,
        ) by {
            assert(other.comp_seen(c, j));
            let d = choose|d: int| 0 <= d <= c && other.grid.cell_exists@[d] && #[trigger] other.curr_comp_id@[d] == j as usize;
            assert(self.curr_comp_id@[d] == j as usize);
        }
    }

    proof fn lemma_half_frame(&self, other: Self, cell: int, d: int, k: int)
        requires
            self.grid == other.grid,
        ensures
            self.half_count(cell, d, k) == other.half_count(cell, d, k),
        decreases k,
    {
        if k > 0 {
            self.lemma_half_frame(other, cell, d, k - 1);
        }
    }

    proof fn lemma_clues_fold_frame(&self, other: Self, st: Option<(Option<usize>, int, int)>, idxs: Seq<usize>)
        requires
            self.grid == other.grid,
            self.cell_clues == other.cell_clues,
        ensures
            self.clues_fold(st, idxs) == other.clues_fold(st, idxs),
        decreases idxs.len(),
    {
        if idxs.len() > 0 {
            self.lemma_clues_fold_frame(other, st, idxs.drop_last());
            let clue = self.cell_clues@[idxs.last() as int];
            if let CellClue::Compass { cell, .. } = clue {
                let n = self.grid.n_cells();
                self.lemma_half_frame(other, cell as int, 0, n);
                self.lemma_half_frame(other, cell as int, 1, n);
                self.lemma_half_frame(other, cell as int, 2, n);
                self.lemma_half_frame(other, cell as int, 3, n);
                assert(self.half_room(cell as int) == other.half_room(cell as int));
            }
        }
    }

    proof fn lemma_cells_fold_frame(&self, other: Self, st: Option<(Option<usize>, int, int)>, cells: Seq<CellId>)
        requires
            self.grid == other.grid,
            self.cell_clues == other.cell_clues,
            self.cell_clues_indexed == other.cell_clues_indexed,
        ensures
            self.cells_fold(st, cells) == other.cells_fold(st, cells),
        decreases cells.len(),
    {
        if cells.len() > 0 {
            self.lemma_cells_fold_frame(other, st, cells.drop_last());
            self.lemma_clues_fold_frame(
                other,
                self.cells_fold(st, cells.drop_last()),
                self.cell_clues_indexed@[cells.last() as int]@,
            );
        }
    }

    /// A component's area facts depend only on the clues, the board and its
    /// cells.
    proof fn lemma_area_frame(&self, other: Self, ci: int)
        requires
            self.grid == other.grid,
            self.cell_clues == other.cell_clues,
            self.cell_clues_indexed == other.cell_clues_indexed,
            self.comp_cells == other.comp_cells,
            self.curr_comp_sz == other.curr_comp_sz,
            self.eff_min_area == other.eff_min_area,
            self.eff_max_area == other.eff_max_area,
        ensures
            self.comp_area(ci) == other.comp_area(ci),
    {
        let init = Some(
            (
                None::<usize>,
                if self.eff_min_area >= 1 {
                    self.eff_min_area as int
                } else {
                    1
                },
                self.eff_max_area as int,
            ),
        );
        self.lemma_cells_fold_frame(other, init, self.comp_cells@[ci]@);
    }

    proof fn lemma_growth_list_same(&self, other: Self, edges: Seq<EdgeState>, ci: int, k: int)
        requires
            self.grid == other.grid,
            self.curr_comp_id == other.curr_comp_id,
            self.curr_comp_sz == other.curr_comp_sz,
            self.curr_target_area == other.curr_target_area,
            self.prop.curr_max_area == other.prop.curr_max_area,
        ensures
            self.growth_list(edges, ci, k) == other.growth_list(edges, ci, k),
        decreases k,
    {
        if k > 0 {
            self.lemma_growth_list_same(other, edges, ci, k - 1);
        }
    }
}


impl Solver {
    /// Edge `e` is not cut and joins cells `x` and `y`.
    pub open spec fn edge_links(&self, e: int, x: int, y: int) -> bool {
        let (a, b) = self.grid.spec_edge_cells(e);
        self.edges@[e] != EdgeState::Cut && ((a == x && b == y) || (a == y && b == x))
    }

    /// Steps for growing from the cells `srcs`: from the extra point `n`
    /// (the number of cells) to each of `srcs`, and from a cell to an
    /// existing neighbour across an edge that is not cut.
    pub open spec fn pot_step(&self, srcs: Seq<CellId>) -> spec_fn(int, int) -> bool {
        let n = self.grid.n_cells();
        |x: int, y: int|
            0 <= y < n && ((x == n && srcs.contains(y as usize)) || (0 <= x < n && self.grid.cell_exists@[y]
                && exists|e: int| 0 <= e < self.grid.n_edges() && #[trigger] self.edge_links(e, x, y)))
    }

    /// The cells reachable from `srcs` through edges that are not cut.
    pub open spec fn pot_cells(&self, srcs: Seq<CellId>) -> Set<usize> {
        Set::new(|y: usize| y < self.grid.n_cells() && reaches(self.pot_step(srcs), self.grid.n_cells(), y as int))
    }

    /// Upper bound on the final size of component `ci`: its target, or the
    /// number of cells reachable from it through edges that are not cut,
    /// capped at its maximum area.
    pub fn growth_potential(&self, ci: usize) -> (r: usize)
        requires
            self.grid.wf(),
            self.edges@.len() == self.grid.n_edges(),
            ci < self.curr_target_area@.len(),
            ci < self.comp_cells@.len(),
            ci < self.prop.curr_max_area@.len(),
            self.comp_cells@[ci as int]@.no_duplicates(),
            forall|k: int| 0 <= k < self.comp_cells@[ci as int]@.len() ==> #[trigger] self.comp_cells@[ci as int]@[k]
                < self.grid.n_cells(),
        ensures
            self.pot_cells(self.comp_cells@[ci as int]@).finite(),
            r == match self.curr_target_area@[ci as int] {
                Some(t) => t as int,
                None => min_int(
                    self.pot_cells(self.comp_cells@[ci as int]@).len() as int,
                    self.prop.curr_max_area@[ci as int] as int,
                ),
            },
    {
        let ghost srcs = self.comp_cells@[ci as int]@;
        let ghost adj = self.pot_step(srcs);
        proof {
            lemma_wf_bounds(self.grid);
        }
        let n = self.grid.num_cells();
        let mut seen: Vec<bool> = vec![false; n + 1];
        seen.set(n, true);
        let ghost s0 = seen@;
        proof {
            assert forall|i: int| 0 <= i < s0.len() implies s0[i] == (i == n as int) by {}
            lemma_search_start(adj, n as int, s0);
            lemma_search_pop(adj, n as int, s0, seq![n], 0, 0);
            assert(seq![n].remove(0) =~= Seq::<usize>::empty());
        }
        let mut q: Vec<usize> = Vec::new();
        let mut reachable: usize = 0;
        let mut i: usize = 0;
        while i < self.comp_cells[ci].len()
            invariant
                self.grid.wf(),
                n == self.grid.n_cells(),
                n < usize::MAX,
                ci < self.comp_cells@.len(),
                srcs == self.comp_cells@[ci as int]@,
                adj == self.pot_step(srcs),
                srcs.no_duplicates(),
                forall|j: int| 0 <= j < q@.len() ==> #[trigger] q@[j] < n,
                forall|k: int| 0 <= k < srcs.len() ==> #[trigger] srcs[k] < n,
                seen@.len() == n + 1,
                i <= srcs.len(),
                search_ok(adj, n as int, seen@, q@, 1, n as int),
                forall|k: int| 0 <= k < srcs.len() ==> (seen@[#[trigger] srcs[k] as int] <==> k < i),
                reachable as int + 1 == marked(seen@).len(),
                reachable <= i,
                forall|y: int| 0 <= y < n && seen@[y] ==> srcs.contains(y as usize),
            decreases srcs.len() - i,
        {
            let c = self.comp_cells[ci][i];
            let ghost sb = seen@;
            let ghost qb = q@;
            proof {
                assert(srcs.contains(c));
                assert(adj(n as int, c as int));
                assert(!sb[c as int]);
                lemma_marked_bound(sb);
            }
            seen.set(c, true);
            q.push(c);
            reachable = reachable + 1;
            proof {
                lemma_search_mark(adj, n as int, sb, qb, 1, n as int, c as int);
                assert(marked(seen@) =~= marked(sb).insert(c));
                assert forall|k: int| 0 <= k < srcs.len() implies (seen@[#[trigger] srcs[k] as int] <==> k < i + 1) by {
                    if k != i as int {
                        assert(srcs[k] != c);
                    }
                }
            }
            i = i + 1;
        }
        proof {
            assert forall|y: int| #[trigger] adj(n as int, y) implies 0 <= y < seen@.len() && seen@[y] by {
                let k = choose|k: int| 0 <= k < srcs.len() && srcs[k] == y as usize;
                assert(seen@[srcs[k] as int]);
            }
            lemma_search_settle(adj, n as int, seen@, q@, 1, n as int);
        }
        let ghost popped: int = 1;
        loop
            invariant
                self.grid.wf(),
                self.edges@.len() == self.grid.n_edges(),
                n == self.grid.n_cells(),
                n < usize::MAX,
                ci < self.comp_cells@.len(),
                srcs == self.comp_cells@[ci as int]@,
                adj == self.pot_step(srcs),
                seen@.len() == n + 1,
                seen@[n as int],
                search_ok(adj, n as int, seen@, q@, popped, -1),
                reachable as int + 1 == marked(seen@).len(),
                forall|j: int| 0 <= j < q@.len() ==> #[trigger] q@[j] < n,
            ensures
                q@.len() == 0,
            decreases 2 * (seen@.len() - marked(seen@).len()) + q@.len(),
        {
            proof {
                lemma_marked_bound(seen@);
            }
            let ghost q0 = q@;
            match q.pop() {
                None => {
                    break;
                },
                Some(cur) => {
                    proof {
                        lemma_search_pop(adj, n as int, seen@, q0, popped, q0.len() - 1);
                        assert(q0.remove(q0.len() - 1) =~= q@);
                        popped = popped + 1;
                        lemma_marked_bound(seen@);
                    }
                    let ghost m0 = 2 * (seen@.len() - marked(seen@).len()) + q@.len();
                    let ce = self.grid.cell_edges(cur);
                    let mut k: usize = 0;
                    while k < 4
                        invariant
                            self.grid.wf(),
                            self.edges@.len() == self.grid.n_edges(),
                            n == self.grid.n_cells(),
                            n < usize::MAX,
                            cur < n,
                            marked(seen@).finite(),
                            marked(seen@).len() <= seen@.len(),
                            2 * (seen@.len() - marked(seen@).len()) + q@.len() <= m0,
                            ce == self.grid.spec_cell_edges(cur as int),
                            forall|t: int| 0 <= t < 4 && (#[trigger] ce[t]).is_some() ==> ce[t].unwrap() < self.grid.n_edges(),
                            adj == self.pot_step(srcs),
                            seen@.len() == n + 1,
                            seen@[n as int],
                            seen@[cur as int],
                            k <= 4,
                            search_ok(adj, n as int, seen@, q@, popped, cur as int),
                            reachable as int + 1 == marked(seen@).len(),
                            forall|j: int| 0 <= j < q@.len() ==> #[trigger] q@[j] < n,
                            forall|t: int|
                                0 <= t < k && (#[trigger] ce[t]).is_some() ==> {
                                    let (a, b) = self.grid.spec_edge_cells(ce[t].unwrap() as int);
                                    let o = if a == cur as int {
                                        b
                                    } else {
                                        a
                                    };
                                    self.edges@[ce[t].unwrap() as int] != EdgeState::Cut && self.grid.cell_exists@[o] ==> seen@[o]
                                },
                        decreases 4 - k,
                    {
                        let ghost seen_k = seen@;
                        if let Some(eid) = ce[k] {
                            proof {
                                lemma_cell_edge_sides(self.grid, cur as int, k as int);
                                lemma_edge_cells_between(self.grid, eid as int);
                            }
                            let (c1, c2) = self.grid.edge_cells(eid);
                            let other = if c1 == cur {
                                c2
                            } else {
                                c1
                            };
                            if self.edges[eid] != EdgeState::Cut && self.grid.cell_exists[other] && !seen[other] {
                                let ghost sb = seen@;
                                let ghost qb = q@;
                                proof {
                                    assert(self.edge_links(eid as int, cur as int, other as int));
                                    assert(adj(cur as int, other as int));
                                    lemma_marked_bound(sb);
                                }
                                seen.set(other, true);
                                q.push(other);
                                reachable = reachable + 1;
                                proof {
                                    lemma_search_mark(adj, n as int, sb, qb, popped, cur as int, other as int);
                                    assert(marked(seen@) =~= marked(sb).insert(other));
                                    assert(!marked(sb).contains(other));
                                    lemma_marked_bound(seen@);
                                }
                            }
                        }
                        proof {
                            assert forall|t: int|
                                0 <= t < k + 1 && (#[trigger] ce[t]).is_some() implies {
                                    let (a, b) = self.grid.spec_edge_cells(ce[t].unwrap() as int);
                                    let o = if a == cur as int {
                                        b
                                    } else {
                                        a
                                    };
                                    self.edges@[ce[t].unwrap() as int] != EdgeState::Cut && self.grid.cell_exists@[o] ==> seen@[o]
                                } by {
                                if t < k {
                                    let (a, b) = self.grid.spec_edge_cells(ce[t].unwrap() as int);
                                    lemma_edge_cells_between(self.grid, ce[t].unwrap() as int);
                                    let o = if a == cur as int {
                                        b
                                    } else {
                                        a
                                    };
                                    if seen_k[o] {
                                        assert(seen@[o]);
                                    }
                                }
                            }
                        }
                        k = k + 1;
                    }
                    proof {
                        assert forall|y: int| #[trigger] adj(cur as int, y) implies 0 <= y < seen@.len() && seen@[y] by {
                            let e = choose|e: int| 0 <= e < self.grid.n_edges() && #[trigger] self.edge_links(e, cur as int, y);
                            lemma_wf_bounds(self.grid);
                            lemma_edge_in_cell_edges(self.grid, e);
                            lemma_edge_cells_between(self.grid, e);
                            let (a, b) = self.grid.spec_edge_cells(e);
                            if a == cur as int {
                                let t: int = if e < self.grid.n_h() { 1 } else { 3 };
                                assert(ce[t] == Some(e as usize));
                                assert(ce[t].unwrap() as int == e);
                                assert(b == y);
                            } else {
                                let t: int = if e < self.grid.n_h() { 0 } else { 2 };
                                assert(ce[t] == Some(e as usize));
                                assert(ce[t].unwrap() as int == e);
                                assert(a == y);
                            }
                        }
                        lemma_search_settle(adj, n as int, seen@, q@, popped, cur as int);
                        lemma_marked_bound(seen@);
                    }
                },
            }
        }
        proof {
            assert(q@ =~= Seq::<usize>::empty());
            lemma_search_done(adj, n as int, seen@, popped);
            let pc = self.pot_cells(srcs);
            assert(pc =~= marked(seen@).remove(n)) by {
                assert forall|y: usize| pc.contains(y) <==> marked(seen@).remove(n).contains(y) by {
                    if y < n {
                        assert(reaches(adj, n as int, y as int) <==> (0 <= y < seen@.len() && seen@[y as int]));
                    }
                }
            }
            assert(marked(seen@).contains(n));
        }
        match self.curr_target_area[ci] {
            Some(t) => t,
            None => {
                let cap = self.prop.curr_max_area[ci];
                if reachable <= cap {
                    reachable
                } else {
                    cap
                }
            },
        }
    }
}

} // verus!
