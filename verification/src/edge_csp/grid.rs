//! Grid geometry: cell / edge / vertex indexing.
//!
//! `h_edge(r,c)` connects `(r,c)-(r+1,c)` and `v_edge(r,c)` connects
//! `(r,c)-(r,c+1)`.  Horizontal edges are numbered column-major first, then the
//! vertical edges row-major.

use vstd::prelude::*;
use vstd::arithmetic::div_mod::lemma_fundamental_div_mod_converse;
use crate::edge_csp::types::{CellId, EdgeId, VertexId};

verus! {

#[derive(Clone, Debug)]
pub struct Grid {
    pub rows: usize,
    pub cols: usize,
    /// `cell_exists[c]` is false for blocked cells.
    pub cell_exists: Vec<bool>,
}

/// `x == q * d + r` with `0 <= r < d` pins down the quotient and remainder.
pub proof fn lemma_div_mod_of(x: int, d: int, q: int, r: int)
    requires
        0 < d,
        0 <= r < d,
        x == q * d + r,
    ensures
        x / d == q,
        x % d == r,
{
    lemma_fundamental_div_mod_converse(x, d, q, r);
}

impl Grid {
    /// The grid's well-formedness: one existence flag per cell, and every
    /// vertex index fits in a `usize`.
    pub open spec fn wf(&self) -> bool {
        &&& self.cell_exists@.len() == self.rows * self.cols
        &&& 2 * ((self.rows + 1) * (self.cols + 1)) <= usize::MAX
    }

    pub open spec fn n_cells(&self) -> int {
        self.rows * self.cols
    }

    pub open spec fn n_h(&self) -> int {
        if self.rows > 1 {
            (self.rows - 1) * self.cols
        } else {
            0
        }
    }

    pub open spec fn n_v(&self) -> int {
        if self.cols > 1 {
            self.rows * (self.cols - 1)
        } else {
            0
        }
    }

    pub open spec fn n_edges(&self) -> int {
        self.n_h() + self.n_v()
    }

    pub open spec fn n_vertices(&self) -> int {
        (self.rows + 1) * (self.cols + 1)
    }

    pub open spec fn spec_cell_id(&self, r: int, c: int) -> int {
        r * self.cols + c
    }

    pub open spec fn spec_h_edge(&self, r: int, c: int) -> int {
        c * (self.rows - 1) + r
    }

    pub open spec fn spec_v_edge(&self, r: int, c: int) -> int {
        self.n_h() + r * (self.cols - 1) + c
    }

    /// `(is_horizontal, r, c)` of edge `e`: the inverse of `spec_h_edge` /
    /// `spec_v_edge` (see `lemma_decode_edge`).
    pub open spec fn spec_decode(&self, e: int) -> (bool, int, int) {
        if e < self.n_h() {
            (true, e % (self.rows - 1), e / (self.rows - 1))
        } else {
            (false, (e - self.n_h()) / (self.cols - 1), (e - self.n_h()) % (self.cols - 1))
        }
    }

    /// The two cells on either side of edge `e`, smaller id first.
    pub open spec fn spec_edge_cells(&self, e: int) -> (int, int) {
        let (is_h, r, c) = self.spec_decode(e);
        if is_h {
            (self.spec_cell_id(r, c), self.spec_cell_id(r + 1, c))
        } else {
            (self.spec_cell_id(r, c), self.spec_cell_id(r, c + 1))
        }
    }

    pub open spec fn spec_vertex(&self, i: int, j: int) -> int {
        i * (self.cols + 1) + j
    }

    /// The two endpoint vertices of edge `e`, smaller id first.
    pub open spec fn spec_edge_vertices(&self, e: int) -> (int, int) {
        let (is_h, r, c) = self.spec_decode(e);
        if is_h {
            (self.spec_vertex(r + 1, c), self.spec_vertex(r + 1, c + 1))
        } else {
            (self.spec_vertex(r, c + 1), self.spec_vertex(r + 1, c + 1))
        }
    }

    /// Cells `a` and `b` share a side.
    pub open spec fn adjacent(&self, a: int, b: int) -> bool {
        let (ra, ca) = (a / self.cols as int, a % self.cols as int);
        let (rb, cb) = (b / self.cols as int, b % self.cols as int);
        (ra == rb && (ca + 1 == cb || cb + 1 == ca)) || (ca == cb && (ra + 1 == rb || rb + 1
            == ra))
    }

    /// The edge separating two adjacent cells.
    pub open spec fn spec_edge_between(&self, a: int, b: int) -> int {
        let (ra, ca) = (a / self.cols as int, a % self.cols as int);
        let (rb, cb) = (b / self.cols as int, b % self.cols as int);
        if ra == rb {
            self.spec_v_edge(ra, if ca < cb { ca } else { cb })
        } else {
            self.spec_h_edge(if ra < rb { ra } else { rb }, ca)
        }
    }

    pub open spec fn spec_vertex_cells(&self, i: int, j: int) -> [Option<CellId>; 4] {
        [
            if i > 0 && j > 0 {
                Some(self.spec_cell_id(i - 1, j - 1) as usize)
            } else {
                None
            },
            if i > 0 && j < self.cols {
                Some(self.spec_cell_id(i - 1, j) as usize)
            } else {
                None
            },
            if i < self.rows && j > 0 {
                Some(self.spec_cell_id(i, j - 1) as usize)
            } else {
                None
            },
            if i < self.rows && j < self.cols {
                Some(self.spec_cell_id(i, j) as usize)
            } else {
                None
            },
        ]
    }

    pub open spec fn spec_cell_edges(&self, c: int) -> [Option<EdgeId>; 4] {
        let (r, col) = (c / self.cols as int, c % self.cols as int);
        [
            if r > 0 {
                Some(self.spec_h_edge(r - 1, col) as usize)
            } else {
                None
            },
            if r < self.rows - 1 {
                Some(self.spec_h_edge(r, col) as usize)
            } else {
                None
            },
            if col > 0 {
                Some(self.spec_v_edge(r, col - 1) as usize)
            } else {
                None
            },
            if col < self.cols - 1 {
                Some(self.spec_v_edge(r, col) as usize)
            } else {
                None
            },
        ]
    }

    pub open spec fn count_existing(s: Seq<bool>) -> nat
        decreases s.len(),
    {
        if s.len() == 0 {
            0
        } else {
            Self::count_existing(s.drop_last()) + if s.last() {
                1nat
            } else {
                0nat
            }
        }
    }

    pub fn new(rows: usize, cols: usize, cell_exists: Vec<bool>) -> (g: Self)
        requires
            cell_exists@.len() == rows * cols,
            2 * ((rows + 1) * (cols + 1)) <= usize::MAX,
        ensures
            g.wf(),
            g.rows == rows,
            g.cols == cols,
            g.cell_exists@ == cell_exists@,
    {
        Self { rows, cols, cell_exists }
    }

    pub fn cell_pos(&self, c: CellId) -> (r: (usize, usize))
        requires
            self.cols > 0,
        ensures
            r.0 == c / self.cols,
            r.1 == c % self.cols,
    {
        (c / self.cols, c % self.cols)
    }

    pub fn cell_id(&self, r: usize, c: usize) -> (id: CellId)
        requires
            self.wf(),
            r < self.rows,
            c < self.cols,
        ensures
            id == self.spec_cell_id(r as int, c as int),
            id < self.n_cells(),
    {
        proof {
            lemma_wf_bounds(*self);
            lemma_cell_id_bound(self.rows as int, self.cols as int, r as int, c as int);
        }
        r * self.cols + c
    }

    pub fn num_h_edges(&self) -> (n: usize)
        requires
            self.wf(),
        ensures
            n == self.n_h(),
    {
        if self.rows > 1 {
            proof {
                lemma_wf_bounds(*self);
                assert((self.rows - 1) * self.cols <= self.rows * self.cols) by (nonlinear_arith)
                    requires
                        self.rows > 1,
                ;
            }
            (self.rows - 1) * self.cols
        } else {
            0
        }
    }

    pub fn num_v_edges(&self) -> (n: usize)
        requires
            self.wf(),
        ensures
            n == self.n_v(),
    {
        if self.cols > 1 {
            proof {
                lemma_wf_bounds(*self);
                assert(self.rows * (self.cols - 1) <= self.rows * self.cols) by (nonlinear_arith)
                    requires
                        self.cols > 1,
                ;
            }
            self.rows * (self.cols - 1)
        } else {
            0
        }
    }

    pub fn num_edges(&self) -> (n: usize)
        requires
            self.wf(),
        ensures
            n == self.n_edges(),
    {
        proof {
            lemma_wf_bounds(*self);
            lemma_edge_count_bound(self.rows as int, self.cols as int);
        }
        self.num_h_edges() + self.num_v_edges()
    }

    pub fn num_cells(&self) -> (n: usize)
        requires
            self.wf(),
        ensures
            n == self.n_cells(),
    {
        proof {
            lemma_wf_bounds(*self);
        }
        self.rows * self.cols
    }

    /// Horizontal edge below cell `(r,c)`, between rows `r` and `r+1`.
    pub fn h_edge(&self, r: usize, c: usize) -> (e: EdgeId)
        requires
            self.wf(),
            r + 1 < self.rows,
            c < self.cols,
        ensures
            e == self.spec_h_edge(r as int, c as int),
            e < self.n_h(),
    {
        proof {
            lemma_wf_bounds(*self);
            lemma_h_edge_bound(self.rows as int, self.cols as int, r as int, c as int);
        }
        c * (self.rows - 1) + r
    }

    /// Vertical edge right of cell `(r,c)`, between cols `c` and `c+1`.
    pub fn v_edge(&self, r: usize, c: usize) -> (e: EdgeId)
        requires
            self.wf(),
            r < self.rows,
            c + 1 < self.cols,
        ensures
            e == self.spec_v_edge(r as int, c as int),
            self.n_h() <= e < self.n_edges(),
    {
        proof {
            lemma_wf_bounds(*self);
            lemma_v_edge_bound(self.rows as int, self.cols as int, r as int, c as int);
            lemma_edge_count_bound(self.rows as int, self.cols as int);
        }
        self.num_h_edges() + r * (self.cols - 1) + c
    }

    /// Decode edge to `(is_horizontal, r, c)`.
    pub fn decode_edge(&self, e: EdgeId) -> (d: (bool, usize, usize))
        requires
            self.wf(),
            e < self.n_edges(),
        ensures
            (d.0, d.1 as int, d.2 as int) == self.spec_decode(e as int),
            d.0 ==> d.1 + 1 < self.rows && d.2 < self.cols,
            !d.0 ==> d.1 < self.rows && d.2 + 1 < self.cols,
    {
        proof {
            lemma_wf_bounds(*self);
            lemma_decode_ranges(*self, e as int);
        }
        let nh = self.num_h_edges();
        if e < nh {
            let r = e % (self.rows - 1);
            let c = e / (self.rows - 1);
            (true, r, c)
        } else {
            let idx = e - nh;
            let r = idx / (self.cols - 1);
            let c = idx % (self.cols - 1);
            (false, r, c)
        }
    }

    /// Edge between two adjacent cells, or `None` if not adjacent.
    pub fn edge_between(&self, a: CellId, b: CellId) -> (r: Option<EdgeId>)
        requires
            self.wf(),
            a < self.n_cells(),
            b < self.n_cells(),
        ensures
            r.is_some() <==> self.adjacent(a as int, b as int),
            r.is_some() ==> r.unwrap() == self.spec_edge_between(a as int, b as int),
            r.is_some() ==> r.unwrap() < self.n_edges(),
    {
        proof {
            lemma_wf_bounds(*self);
            lemma_pos_bounds(self.rows as int, self.cols as int, a as int);
            lemma_pos_bounds(self.rows as int, self.cols as int, b as int);
        }
        let (ra, ca) = self.cell_pos(a);
        let (rb, cb) = self.cell_pos(b);
        if ra == rb && ca + 1 == cb {
            return Some(self.v_edge(ra, ca));
        }
        if ra == rb && ca == cb + 1 {
            return Some(self.v_edge(ra, cb));
        }
        if ca == cb && ra + 1 == rb {
            return Some(self.h_edge(ra, ca));
        }
        if ca == cb && ra == rb + 1 {
            return Some(self.h_edge(rb, cb));
        }
        None
    }

    /// The two cells adjacent to an edge, sorted: `.0 < .1`.
    pub fn edge_cells(&self, e: EdgeId) -> (r: (CellId, CellId))
        requires
            self.wf(),
            e < self.n_edges(),
        ensures
            (r.0 as int, r.1 as int) == self.spec_edge_cells(e as int),
            r.0 < r.1 < self.n_cells(),
    {
        let (is_h, r, c) = self.decode_edge(e);
        if is_h {
            proof {
                lemma_wf_bounds(*self);
                assert(self.spec_cell_id(r as int, c as int) < self.spec_cell_id(r + 1, c as int))
                    by (nonlinear_arith)
                    requires
                        self.cols > 0,
                ;
            }
            (self.cell_id(r, c), self.cell_id(r + 1, c))
        } else {
            (self.cell_id(r, c), self.cell_id(r, c + 1))
        }
    }

    /// Vertex at grid point `(i,j)`, `0<=i<=rows`, `0<=j<=cols`.
    pub fn vertex(&self, i: usize, j: usize) -> (v: VertexId)
        requires
            self.wf(),
            i <= self.rows,
            j <= self.cols,
        ensures
            v == self.spec_vertex(i as int, j as int),
            v < self.n_vertices(),
    {
        proof {
            lemma_wf_bounds(*self);
            lemma_cell_id_bound(self.rows + 1, self.cols + 1, i as int, j as int);
        }
        i * (self.cols + 1) + j
    }

    /// Inverse of `vertex`: recover the grid point `(i,j)` from a `VertexId`.
    pub fn vertex_pos(&self, v: VertexId) -> (p: (usize, usize))
        requires
            self.wf(),
        ensures
            p.0 == v as int / (self.cols + 1),
            p.1 == v as int % (self.cols + 1),
    {
        proof {
            lemma_wf_bounds(*self);
        }
        (v / (self.cols + 1), v % (self.cols + 1))
    }

    /// The two endpoint vertices of an edge, sorted: `.0 < .1`.
    pub fn edge_vertices(&self, e: EdgeId) -> (r: (VertexId, VertexId))
        requires
            self.wf(),
            e < self.n_edges(),
        ensures
            (r.0 as int, r.1 as int) == self.spec_edge_vertices(e as int),
            r.0 < r.1 < self.n_vertices(),
    {
        let (is_h, r, c) = self.decode_edge(e);
        if is_h {
            (self.vertex(r + 1, c), self.vertex(r + 1, c + 1))
        } else {
            proof {
                lemma_wf_bounds(*self);
                assert(self.spec_vertex(r as int, c + 1) < self.spec_vertex(r + 1, c + 1))
                    by (nonlinear_arith);
            }
            (self.vertex(r, c + 1), self.vertex(r + 1, c + 1))
        }
    }

    /// Cells sharing a vertex: top-left, top-right, bottom-left, bottom-right.
    pub fn vertex_cells(&self, i: usize, j: usize) -> (r: [Option<CellId>; 4])
        requires
            self.wf(),
            i <= self.rows,
            j <= self.cols,
        ensures
            r == self.spec_vertex_cells(i as int, j as int),
            forall|k: int| 0 <= k < 4 && (#[trigger] r[k]).is_some() ==> r[k].unwrap() < self.n_cells(),
    {
        [
            if i > 0 && j > 0 {
                Some(self.cell_id(i - 1, j - 1))
            } else {
                None
            },
            if i > 0 && j < self.cols {
                Some(self.cell_id(i - 1, j))
            } else {
                None
            },
            if i < self.rows && j > 0 {
                Some(self.cell_id(i, j - 1))
            } else {
                None
            },
            if i < self.rows && j < self.cols {
                Some(self.cell_id(i, j))
            } else {
                None
            },
        ]
    }

    /// The up-to-4 edges around a cell, in order `[north, south, west, east]`.
    pub fn cell_edges(&self, c: CellId) -> (r: [Option<EdgeId>; 4])
        requires
            self.wf(),
            c < self.n_cells(),
        ensures
            r == self.spec_cell_edges(c as int),
            forall|k: int| 0 <= k < 4 && (#[trigger] r[k]).is_some() ==> r[k].unwrap() < self.n_edges(),
    {
        proof {
            lemma_wf_bounds(*self);
            lemma_pos_bounds(self.rows as int, self.cols as int, c as int);
        }
        let (r, col) = self.cell_pos(c);
        [
            if r > 0 {
                Some(self.h_edge(r - 1, col))
            } else {
                None
            },
            if r < self.rows - 1 {
                Some(self.h_edge(r, col))
            } else {
                None
            },
            if col > 0 {
                Some(self.v_edge(r, col - 1))
            } else {
                None
            },
            if col < self.cols - 1 {
                Some(self.v_edge(r, col))
            } else {
                None
            },
        ]
    }

    pub fn total_existing_cells(&self) -> (n: usize)
        requires
            self.wf(),
        ensures
            n == Self::count_existing(self.cell_exists@),
    {
        let mut n: usize = 0;
        let mut i: usize = 0;
        while i < self.cell_exists.len()
            invariant
                i <= self.cell_exists@.len(),
                n == Self::count_existing(self.cell_exists@.take(i as int)),
                n <= i,
            decreases self.cell_exists@.len() - i,
        {
            assert(self.cell_exists@.take(i + 1).drop_last() == self.cell_exists@.take(i as int));
            if self.cell_exists[i] {
                n = n + 1;
            }
            i = i + 1;
        }
        assert(self.cell_exists@.take(i as int) == self.cell_exists@);
        n
    }
}

pub proof fn lemma_cell_id_bound(rows: int, cols: int, r: int, c: int)
    requires
        0 <= r < rows,
        0 <= c < cols,
    ensures
        0 <= r * cols + c < rows * cols,
        (r * cols + c) / cols == r,
        (r * cols + c) % cols == c,
{
    assert(0 <= r * cols + c < rows * cols) by (nonlinear_arith)
        requires
            0 <= r < rows,
            0 <= c < cols,
    ;
    lemma_div_mod_of(r * cols + c, cols, r, c);
}

pub proof fn lemma_pos_bounds(rows: int, cols: int, a: int)
    requires
        0 <= a < rows * cols,
        0 <= rows,
        0 <= cols,
    ensures
        cols > 0,
        rows > 0,
        0 <= a / cols < rows,
        0 <= a % cols < cols,
        a == (a / cols) * cols + a % cols,
{
    if cols <= 0 {
        assert(rows * cols <= 0) by (nonlinear_arith)
            requires
                cols <= 0,
                rows >= 0,
        ;
    }
    if rows <= 0 {
        assert(rows * cols <= 0) by (nonlinear_arith)
            requires
                rows <= 0,
                cols >= 0,
        ;
    }
    vstd::arithmetic::div_mod::lemma_fundamental_div_mod(a, cols);
    vstd::arithmetic::div_mod::lemma_mod_bound(a, cols);
    vstd::arithmetic::div_mod::lemma_div_pos_is_pos(a, cols);
    let q = a / cols;
    let m = a % cols;
    assert(a == q * cols + m) by (nonlinear_arith)
        requires
            a == cols * q + m,
    ;
    assert(q < rows) by (nonlinear_arith)
        requires
            a == q * cols + m,
            0 <= m,
            a < rows * cols,
            cols > 0,
    ;
}

pub proof fn lemma_edge_count_bound(rows: int, cols: int)
    requires
        0 <= rows,
        0 <= cols,
    ensures
        (if rows > 1 { (rows - 1) * cols } else { 0 }) + (if cols > 1 { rows * (cols - 1) } else { 0 })
            <= 2 * ((rows + 1) * (cols + 1)),
{
    assert((rows - 1) * cols <= (rows + 1) * (cols + 1)) by (nonlinear_arith)
        requires
            0 <= rows,
            0 <= cols,
    ;
    assert(rows * (cols - 1) <= (rows + 1) * (cols + 1)) by (nonlinear_arith)
        requires
            0 <= rows,
            0 <= cols,
    ;
}

/// Every index computed from a well-formed grid fits in a `usize`.
pub proof fn lemma_wf_bounds(g: Grid)
    requires
        g.wf(),
    ensures
        g.rows * g.cols <= g.n_vertices() <= usize::MAX,
        g.rows < usize::MAX,
        g.cols < usize::MAX,
        g.rows * g.cols == g.cell_exists@.len(),
        g.n_edges() <= usize::MAX,
        g.n_h() <= g.rows * g.cols,
        g.n_v() <= g.rows * g.cols,
{
    let r = g.rows as int;
    let c = g.cols as int;
    assert(r * c <= (r + 1) * (c + 1)) by (nonlinear_arith)
        requires
            0 <= r,
            0 <= c,
    ;
    assert(r + 1 <= (r + 1) * (c + 1)) by (nonlinear_arith)
        requires
            0 <= r,
            0 <= c,
    ;
    assert(c + 1 <= (r + 1) * (c + 1)) by (nonlinear_arith)
        requires
            0 <= r,
            0 <= c,
    ;
    lemma_edge_count_bound(r, c);
    assert((r - 1) * c <= r * c) by (nonlinear_arith)
        requires
            0 <= c,
    ;
    assert(r * (c - 1) <= r * c) by (nonlinear_arith)
        requires
            0 <= r,
    ;
}

pub proof fn lemma_h_edge_bound(rows: int, cols: int, r: int, c: int)
    requires
        0 <= r,
        r + 1 < rows,
        0 <= c < cols,
    ensures
        0 <= c * (rows - 1) + r < (rows - 1) * cols,
        (c * (rows - 1) + r) / (rows - 1) == c,
        (c * (rows - 1) + r) % (rows - 1) == r,
{
    assert(0 <= c * (rows - 1) + r < (rows - 1) * cols) by (nonlinear_arith)
        requires
            0 <= r,
            r + 1 < rows,
            0 <= c < cols,
    ;
    lemma_div_mod_of(c * (rows - 1) + r, rows - 1, c, r);
}

pub proof fn lemma_v_edge_bound(rows: int, cols: int, r: int, c: int)
    requires
        0 <= r < rows,
        0 <= c,
        c + 1 < cols,
    ensures
        0 <= r * (cols - 1) + c < rows * (cols - 1),
        (r * (cols - 1) + c) / (cols - 1) == r,
        (r * (cols - 1) + c) % (cols - 1) == c,
{
    assert(0 <= r * (cols - 1) + c < rows * (cols - 1)) by (nonlinear_arith)
        requires
            0 <= r < rows,
            0 <= c,
            c + 1 < cols,
    ;
    lemma_div_mod_of(r * (cols - 1) + c, cols - 1, r, c);
}

/// Every edge index decodes to an in-range horizontal or vertical position.
pub proof fn lemma_decode_ranges(g: Grid, e: int)
    requires
        g.wf(),
        0 <= e < g.n_edges(),
    ensures
        ({
            let (is_h, r, c) = g.spec_decode(e);
            &&& is_h <==> e < g.n_h()
            &&& is_h ==> 0 <= r && r + 1 < g.rows && 0 <= c < g.cols && e == g.spec_h_edge(r, c)
            &&& !is_h ==> 0 <= r < g.rows && 0 <= c && c + 1 < g.cols && e == g.spec_v_edge(r, c)
        }),
{
    let rows = g.rows as int;
    let cols = g.cols as int;
    if e < g.n_h() {
        assert(rows > 1);
        vstd::arithmetic::div_mod::lemma_fundamental_div_mod(e, rows - 1);
        vstd::arithmetic::div_mod::lemma_mod_bound(e, rows - 1);
        vstd::arithmetic::div_mod::lemma_div_pos_is_pos(e, rows - 1);
        let q = e / (rows - 1);
        if q >= cols {
            assert(q * (rows - 1) >= cols * (rows - 1)) by (nonlinear_arith)
                requires
                    q >= cols,
                    rows > 1,
            ;
        }
    } else {
        let x = e - g.n_h();
        assert(g.n_v() > 0);
        assert(cols > 1);
        vstd::arithmetic::div_mod::lemma_fundamental_div_mod(x, cols - 1);
        vstd::arithmetic::div_mod::lemma_mod_bound(x, cols - 1);
        vstd::arithmetic::div_mod::lemma_div_pos_is_pos(x, cols - 1);
        let q = x / (cols - 1);
        if q >= rows {
            assert(q * (cols - 1) >= rows * (cols - 1)) by (nonlinear_arith)
                requires
                    q >= rows,
                    cols > 1,
            ;
        }
        assert(x == q * (cols - 1) + x % (cols - 1)) by (nonlinear_arith)
            requires
                x == (cols - 1) * q + x % (cols - 1),
        ;
    }
}

/// Encoding an in-range horizontal or vertical edge position and decoding
/// it gives the position back.
pub proof fn lemma_decode_encode(g: Grid, r: int, c: int)
    requires
        g.wf(),
    ensures
        0 <= r && r + 1 < g.rows && 0 <= c < g.cols ==> g.spec_decode(g.spec_h_edge(r, c)) == (
        true,
        r,
        c,
        ),
        0 <= r < g.rows && 0 <= c && c + 1 < g.cols ==> g.spec_decode(g.spec_v_edge(r, c)) == (
        false,
        r,
        c,
        ),
{
    if 0 <= r && r + 1 < g.rows && 0 <= c < g.cols {
        lemma_h_edge_bound(g.rows as int, g.cols as int, r, c);
    }
    if 0 <= r < g.rows && 0 <= c && c + 1 < g.cols {
        lemma_v_edge_bound(g.rows as int, g.cols as int, r, c);
    }
}

/// The cell index of `(r, c)` decodes back to `(r, c)`, and the vertex index
/// of `(i, j)` decodes back to `(i, j)`.
pub proof fn lemma_positions_roundtrip(g: Grid, r: int, c: int, i: int, j: int)
    requires
        g.wf(),
    ensures
        0 <= r < g.rows && 0 <= c < g.cols ==> g.spec_cell_id(r, c) / g.cols as int == r
            && g.spec_cell_id(r, c) % g.cols as int == c,
        0 <= i <= g.rows && 0 <= j <= g.cols ==> g.spec_vertex(i, j) / (g.cols + 1) == i
            && g.spec_vertex(i, j) % (g.cols + 1) == j,
{
    if 0 <= r < g.rows && 0 <= c < g.cols {
        lemma_cell_id_bound(g.rows as int, g.cols as int, r, c);
    }
    if 0 <= i <= g.rows && 0 <= j <= g.cols {
        lemma_cell_id_bound(g.rows + 1, g.cols + 1, i, j);
    }
}

/// Every edge separates two side-adjacent cells, and the edge between those
/// two cells is that very edge: `edge_between(edge_cells(e)) == Some(e)`.
pub proof fn lemma_edge_cells_between(g: Grid, e: int)
    requires
        g.wf(),
        0 <= e < g.n_edges(),
    ensures
        ({
            let (a, b) = g.spec_edge_cells(e);
            &&& 0 <= a < b < g.n_cells()
            &&& g.adjacent(a, b)
            &&& g.spec_edge_between(a, b) == e
        }),
{
    lemma_decode_ranges(g, e);
    let (is_h, r, c) = g.spec_decode(e);
    if is_h {
        lemma_cell_id_bound(g.rows as int, g.cols as int, r, c);
        lemma_cell_id_bound(g.rows as int, g.cols as int, r + 1, c);
        assert(g.spec_cell_id(r, c) < g.spec_cell_id(r + 1, c)) by (nonlinear_arith)
            requires
                g.cols > 0,
        ;
    } else {
        lemma_cell_id_bound(g.rows as int, g.cols as int, r, c);
        lemma_cell_id_bound(g.rows as int, g.cols as int, r, c + 1);
    }
}

/// Edge `e` is in the edge list of each of the two cells it separates: the
/// first cell sees it south (horizontal edge) or east (vertical edge), the
/// second north or west.
pub proof fn lemma_edge_in_cell_edges(g: Grid, e: int)
    requires
        g.wf(),
        0 <= e < g.n_edges(),
    ensures
        ({
            let (a, b) = g.spec_edge_cells(e);
            &&& g.spec_cell_edges(a)[if e < g.n_h() {
                1int
            } else {
                3int
            }] == Some(e as usize)
            &&& g.spec_cell_edges(b)[if e < g.n_h() {
                0int
            } else {
                2int
            }] == Some(e as usize)
        }),
{
    lemma_decode_ranges(g, e);
    let (is_h, r, c) = g.spec_decode(e);
    if is_h {
        lemma_positions_roundtrip(g, r, c, 0, 0);
        lemma_positions_roundtrip(g, r + 1, c, 0, 0);
    } else {
        lemma_positions_roundtrip(g, r, c, 0, 0);
        lemma_positions_roundtrip(g, r, c + 1, 0, 0);
    }
}

/// Every edge in a cell's edge list is a real edge with that cell on one of
/// its two sides.
pub proof fn lemma_cell_edge_sides(g: Grid, x: int, k: int)
    requires
        g.wf(),
        0 <= x < g.n_cells(),
        0 <= k < 4,
        g.spec_cell_edges(x)[k] is Some,
    ensures
        ({
            let e = g.spec_cell_edges(x)[k].unwrap() as int;
            &&& 0 <= e < g.n_edges()
            &&& g.spec_edge_cells(e).0 == x || g.spec_edge_cells(e).1 == x
        }),
{
    lemma_wf_bounds(g);
    lemma_pos_bounds(g.rows as int, g.cols as int, x);
    let r = x / g.cols as int;
    let c = x % g.cols as int;
    assert(x == g.spec_cell_id(r, c)) by {
        vstd::arithmetic::div_mod::lemma_fundamental_div_mod(x, g.cols as int);
        assert(x == g.cols * r + c);
        assert(g.cols * r == r * g.cols) by (nonlinear_arith);
    }
    if k == 0 {
        lemma_h_edge_bound(g.rows as int, g.cols as int, r - 1, c);
        lemma_decode_encode(g, r - 1, c);
        assert(g.spec_cell_id(r - 1, c) + g.cols == g.spec_cell_id(r, c)) by (nonlinear_arith);
    } else if k == 1 {
        lemma_h_edge_bound(g.rows as int, g.cols as int, r, c);
        lemma_decode_encode(g, r, c);
    } else if k == 2 {
        lemma_v_edge_bound(g.rows as int, g.cols as int, r, c - 1);
        lemma_decode_encode(g, r, c - 1);
    } else {
        lemma_v_edge_bound(g.rows as int, g.cols as int, r, c);
        lemma_decode_encode(g, r, c);
    }
}

/// Two corner cells around a grid point that share a side (top pair, left
/// pair, right pair, bottom pair) are adjacent.
pub proof fn lemma_corner_adjacent(g: Grid, i: int, j: int, a: int, b: int)
    requires
        g.wf(),
        0 <= i <= g.rows,
        0 <= j <= g.cols,
        (a == 0 && b == 1) || (a == 0 && b == 2) || (a == 1 && b == 3) || (a == 2 && b == 3),
        g.spec_vertex_cells(i, j)[a] is Some,
        g.spec_vertex_cells(i, j)[b] is Some,
    ensures
        g.adjacent(
            g.spec_vertex_cells(i, j)[a].unwrap() as int,
            g.spec_vertex_cells(i, j)[b].unwrap() as int,
        ),
{
    lemma_wf_bounds(g);
    let ra = if a <= 1 { i - 1 } else { i };
    let ca = if a == 0 || a == 2 { j - 1 } else { j };
    let rb = if b <= 1 { i - 1 } else { i };
    let cb = if b == 0 || b == 2 { j - 1 } else { j };
    lemma_cell_id_bound(g.rows as int, g.cols as int, ra, ca);
    lemma_cell_id_bound(g.rows as int, g.cols as int, rb, cb);
}

} // verus!
