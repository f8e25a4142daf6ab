//! Support for the piece-placement (exact cover) solver: which clues a
//! puzzle carries, the watchtower and edge-constraint tables, placement of
//! offset shapes, the compass half-plane checks, and the enumeration of the
//! regions a compass clue allows.

use vstd::prelude::*;
use std::collections::HashMap;
use std::time::Instant;
use crate::clock::deadline_reached;
use crate::types::{Cell, CompassClue, EdgeConstraintType, Puzzle, RuleType};

verus! {

/// Most compass placements collected per clue.
pub const MAX_COMPASS_PLACEMENTS: usize = 2000;

/// Most cell sets expanded per compass clue.
pub const MAX_COMPASS_ENUM_STATES: usize = 200_000;

/// Area numbers above this are left to the backtracking search.
pub const MAX_AREA_TARGET: usize = 12;

/// Some cell carries an area number or a compass.
pub open spec fn has_number_or_compass(p: Puzzle) -> bool {
    exists|r: int, c: int|
        0 <= r < p.height && 0 <= c < p.width && ((#[trigger] p.cell(r, c)).number is Some
            || p.cell(r, c).compass is Some)
}

/// Whether the puzzle gives the placement solver something to anchor on: a
/// `block` rule, or a cell with an area number or a compass.
pub fn has_clues(puzzle: &Puzzle) -> (b: bool)
    requires
        puzzle.wf(),
    ensures
        b == (puzzle.has_rule(RuleType::Block) || has_number_or_compass(*puzzle)),
{
    if puzzle.has_rule_type(RuleType::Block) {
        return true;
    }
    let mut r: usize = 0;
    while r < puzzle.height
        invariant
            puzzle.wf(),
            r <= puzzle.height,
            forall|rr: int, cc: int|
                0 <= rr < r && 0 <= cc < puzzle.width ==> !((#[trigger] puzzle.cell(rr, cc)).number is Some
                    || puzzle.cell(rr, cc).compass is Some),
        decreases puzzle.height - r,
    {
        let mut c: usize = 0;
        while c < puzzle.width
            invariant
                puzzle.wf(),
                r < puzzle.height,
                c <= puzzle.width,
                forall|rr: int, cc: int|
                    0 <= rr < r && 0 <= cc < puzzle.width ==> !((#[trigger] puzzle.cell(rr, cc)).number is Some
                        || puzzle.cell(rr, cc).compass is Some),
                forall|cc: int|
                    0 <= cc < c ==> !((#[trigger] puzzle.cell(r as int, cc)).number is Some
                        || puzzle.cell(r as int, cc).compass is Some),
            decreases puzzle.width - c,
        {
            let cell = &puzzle.cells[r][c];
            if cell.number.is_some() || cell.compass.is_some() {
                assert(puzzle.cell(r as int, c as int) == *cell);
                return true;
            }
            c = c + 1;
        }
        r = r + 1;
    }
    false
}

/// A cell carries a clue that counts for `solitary`.
pub open spec fn spec_is_clue(cell: Cell) -> bool {
    cell.symbol is Some || cell.compass is Some || cell.number is Some || cell.shape_pattern is Some
        || cell.fence_pattern is Some
}

/// Whether cell `(r, c)` carries a clue that counts for `solitary`.
pub fn is_clue_cell(puzzle: &Puzzle, r: usize, c: usize) -> (b: bool)
    requires
        puzzle.wf(),
        r < puzzle.height,
        c < puzzle.width,
    ensures
        b == spec_is_clue(puzzle.cell(r as int, c as int)),
{
    let cell = &puzzle.cells[r][c];
    cell.symbol.is_some() || cell.compass.is_some() || cell.number.is_some()
        || cell.shape_pattern.is_some() || cell.fence_pattern.is_some()
}

/// Open cells carrying a clue, over the rows above `r`.
pub open spec fn clue_count_rows(p: Puzzle, r: int) -> int
    decreases r,
{
    if r <= 0 {
        0
    } else {
        clue_count_rows(p, r - 1) + clue_count_row(p, r - 1, p.width as int)
    }
}

/// Open cells carrying a clue in row `r`, columns below `c`.
pub open spec fn clue_count_row(p: Puzzle, r: int, c: int) -> int
    decreases c,
{
    if c <= 0 {
        0
    } else {
        clue_count_row(p, r, c - 1) + if !p.cell(r, c - 1).blocked && spec_is_clue(p.cell(r, c - 1)) {
            1int
        } else {
            0int
        }
    }
}

/// The number of open clue cells when the puzzle has a `solitary` rule.
pub fn solitary_clue_count(puzzle: &Puzzle) -> (n: Option<usize>)
    requires
        puzzle.wf(),
    ensures
        n == if puzzle.has_rule(RuleType::Solitary) {
            Some(clue_count_rows(*puzzle, puzzle.height as int) as usize)
        } else {
            None::<usize>
        },
        n is Some ==> clue_count_rows(*puzzle, puzzle.height as int) <= puzzle.height * puzzle.width,
{
    if !puzzle.has_rule_type(RuleType::Solitary) {
        return None;
    }
    proof {
        assert((puzzle.height + 1) * (puzzle.width + 1) >= puzzle.height * puzzle.width) by (nonlinear_arith);
    }
    let mut n: usize = 0;
    let mut r: usize = 0;
    while r < puzzle.height
        invariant
            puzzle.wf(),
            r <= puzzle.height,
            n == clue_count_rows(*puzzle, r as int),
            n <= r * puzzle.width,
            puzzle.height * puzzle.width <= usize::MAX,
        decreases puzzle.height - r,
    {
        let mut c: usize = 0;
        while c < puzzle.width
            invariant
                puzzle.wf(),
                r < puzzle.height,
                c <= puzzle.width,
                n == clue_count_rows(*puzzle, r as int) + clue_count_row(*puzzle, r as int, c as int),
                n <= r * puzzle.width + c,
                puzzle.height * puzzle.width <= usize::MAX,
            decreases puzzle.width - c,
        {
            proof {
                assert(r * puzzle.width + c < puzzle.height * puzzle.width) by (nonlinear_arith)
                    requires
                        r < puzzle.height,
                        c < puzzle.width,
                ;
            }
            let cell = &puzzle.cells[r][c];
            if !cell.blocked && (cell.symbol.is_some() || cell.compass.is_some()
                || cell.number.is_some() || cell.shape_pattern.is_some()
                || cell.fence_pattern.is_some()) {
                n = n + 1;
            }
            c = c + 1;
        }
        proof {
            assert(r * puzzle.width + puzzle.width == (r + 1) * puzzle.width) by (nonlinear_arith);
        }
        r = r + 1;
    }
    Some(n)
}

/// How many of the four compass directions are given.
pub open spec fn spec_count_specified(comp: CompassClue) -> int {
    (if comp.up is Some { 1int } else { 0int }) + (if comp.down is Some { 1int } else { 0int }) + (
    if comp.right is Some {
        1int
    } else {
        0int
    }) + (if comp.left is Some { 1int } else { 0int })
}

pub fn count_specified(comp: &CompassClue) -> (n: usize)
    ensures
        n == spec_count_specified(*comp),
{
    let mut n: usize = 0;
    if comp.up.is_some() {
        n = n + 1;
    }
    if comp.down.is_some() {
        n = n + 1;
    }
    if comp.right.is_some() {
        n = n + 1;
    }
    if comp.left.is_some() {
        n = n + 1;
    }
    n
}

impl CompassClue {
    /// Both east and west counts are given as zero.
    pub fn east_west_strip(&self) -> (b: bool)
        ensures
            b == (self.right == Some(0i64) && self.left == Some(0i64)),
    {
        let r = match self.right {
            Some(v) => v == 0,
            None => false,
        };
        let l = match self.left {
            Some(v) => v == 0,
            None => false,
        };
        r && l
    }

    /// Both north and south counts are given as zero.
    pub fn north_south_strip(&self) -> (b: bool)
        ensures
            b == (self.up == Some(0i64) && self.down == Some(0i64)),
    {
        let u = match self.up {
            Some(v) => v == 0,
            None => false,
        };
        let d = match self.down {
            Some(v) => v == 0,
            None => false,
        };
        u && d
    }
}

/// A pre-drawn boundary separates side neighbours `(r1, c1)` and `(r2, c2)`.
pub open spec fn spec_is_precut(p: Puzzle, r1: int, c1: int, r2: int, c2: int) -> bool {
    if r1 == r2 {
        p.h_edges@[r1]@[if c1 < c2 {
            c1
        } else {
            c2
        }].is_boundary
    } else {
        p.v_edges@[if r1 < r2 {
            r1
        } else {
            r2
        }]@[c1].is_boundary
    }
}

/// `(r1, c1)` and `(r2, c2)` are side neighbours on the grid.
pub open spec fn grid_neighbours(p: Puzzle, r1: int, c1: int, r2: int, c2: int) -> bool {
    &&& 0 <= r1 < p.height && 0 <= c1 < p.width && 0 <= r2 < p.height && 0 <= c2 < p.width
    &&& (r1 == r2 && (c1 + 1 == c2 || c2 + 1 == c1)) || (c1 == c2 && (r1 + 1 == r2 || r2 + 1
        == r1))
}

pub fn is_precut(puzzle: &Puzzle, r1: usize, c1: usize, r2: usize, c2: usize) -> (b: bool)
    requires
        puzzle.wf(),
        grid_neighbours(*puzzle, r1 as int, c1 as int, r2 as int, c2 as int),
    ensures
        b == spec_is_precut(*puzzle, r1 as int, c1 as int, r2 as int, c2 as int),
{
    if r1 == r2 {
        let c = if c1 < c2 {
            c1
        } else {
            c2
        };
        puzzle.h_edges[r1][c].is_boundary
    } else {
        let r = if r1 < r2 {
            r1
        } else {
            r2
        };
        puzzle.v_edges[r][c1].is_boundary
    }
}

/// The cells `(r + dr, c + dc)` of `offsets`, when all lie on the grid and
/// none is blocked.
pub open spec fn placed(p: Puzzle, offsets: Seq<[isize; 2]>, r: int, c: int) -> Option<Seq<[usize; 2]>> {
    if forall|i: int|
        0 <= i < offsets.len() ==> {
            let nr = r + (#[trigger] offsets[i])[0];
            let nc = c + offsets[i][1];
            0 <= nr < p.height && 0 <= nc < p.width && !p.cell(nr, nc).blocked
        } {
        Some(Seq::new(offsets.len(), |i: int| [(r + offsets[i][0]) as usize, (c + offsets[i][1]) as usize]))
    } else {
        None
    }
}

/// Place an offset shape with its origin at `(r, c)`.
pub fn try_place(offsets: &[[isize; 2]], r: usize, c: usize, h: usize, w: usize, puzzle: &Puzzle) -> (res: Option<Vec<[usize; 2]>>)
    requires
        puzzle.wf(),
        h == puzzle.height,
        w == puzzle.width,
        r < h,
        c < w,
    ensures
        match res {
            Some(v) => placed(*puzzle, offsets@, r as int, c as int) == Some(v@),
            None => placed(*puzzle, offsets@, r as int, c as int) is None,
        },
{
    proof {
        assert((h + 1) * (w + 1) >= h + 1) by (nonlinear_arith);
        assert((h + 1) * (w + 1) >= w + 1) by (nonlinear_arith);
    }
    let mut cells: Vec<[usize; 2]> = Vec::new();
    let mut i: usize = 0;
    while i < offsets.len()
        invariant
            puzzle.wf(),
            h == puzzle.height,
            w == puzzle.width,
            r < h,
            c < w,
            h + 1 <= isize::MAX,
            w + 1 <= isize::MAX,
            i <= offsets@.len(),
            cells@.len() == i,
            forall|k: int|
                0 <= k < i ==> {
                    let nr = r + (#[trigger] offsets@[k])[0];
                    let nc = c + offsets@[k][1];
                    &&& 0 <= nr < h && 0 <= nc < w && !puzzle.cell(nr, nc).blocked
                    &&& cells@[k] == [nr as usize, nc as usize]
                },
        decreases offsets@.len() - i,
    {
        let dr = offsets[i][0];
        let dc = offsets[i][1];
        let nr = (r as isize).checked_add(dr);
        let nc = (c as isize).checked_add(dc);
        let (nr, nc) = match (nr, nc) {
            (Some(a), Some(b)) => (a, b),
            _ => {
                proof {
                    assert(!(0 <= r + offsets@[i as int][0] < h && 0 <= c + offsets@[i as int][1] < w));
                }
                return None;
            },
        };
        if nr < 0 || nr >= h as isize || nc < 0 || nc >= w as isize {
            return None;
        }
        let nr = nr as usize;
        let nc = nc as usize;
        if puzzle.cells[nr][nc].blocked {
            return None;
        }
        cells.push([nr, nc]);
        i = i + 1;
    }
    proof {
        assert(cells@ =~= Seq::new(offsets@.len(), |k: int| [(r + offsets@[k][0]) as usize, (c + offsets@[k][1]) as usize]));
    }
    Some(cells)
}

/// The in-grid side neighbours of `(r, c)`: up, down, left, right.
pub fn neighbor_positions(r: usize, c: usize, h: usize, w: usize) -> (v: Vec<(usize, usize)>)
    requires
        r < h,
        c < w,
    ensures
        forall|i: int|
            0 <= i < v@.len() ==> {
                let (nr, nc) = #[trigger] v@[i];
                &&& nr < h && nc < w
                &&& (nr == r && (nc + 1 == c || c + 1 == nc)) || (nc == c && (nr + 1 == r || r + 1 == nr))
            },
        forall|nr: usize, nc: usize|
            nr < h && nc < w && ((nr == r && (nc + 1 == c || c + 1 == nc)) || (nc == c
                && (nr + 1 == r || r + 1 == nr))) ==> #[trigger] v@.contains((nr, nc)),
{
    let mut v: Vec<(usize, usize)> = Vec::new();
    if r > 0 {
        v.push((r - 1, c));
    }
    if r + 1 < h {
        v.push((r + 1, c));
    }
    if c > 0 {
        v.push((r, c - 1));
    }
    if c + 1 < w {
        v.push((r, c + 1));
    }
    proof {
        assert forall|nr: usize, nc: usize|
            nr < h && nc < w && ((nr == r && (nc + 1 == c || c + 1 == nc)) || (nc == c
                && (nr + 1 == r || r + 1 == nr))) implies #[trigger] v@.contains((nr, nc)) by {
            let x = (nr, nc);
            let a: int = if r > 0 { 1 } else { 0 };
            let b: int = a + if r + 1 < h { 1int } else { 0int };
            let d: int = b + if c > 0 { 1int } else { 0int };
            if nr + 1 == r {
                assert(v@[0] == x);
            } else if r + 1 == nr {
                assert(v@[a] == x);
            } else if nc + 1 == c {
                assert(v@[b] == x);
            } else {
                assert(v@[d] == x);
            }
        }
    }
    v
}

/// Whether cell `p` lies in half-plane `k` around `(cr, cc)`: 0 north
/// (smaller rows), 1 south, 2 east (larger columns), 3 west.
pub open spec fn in_half_plane(p: [usize; 2], cr: int, cc: int, k: int) -> bool {
    if k == 0 {
        p[0] < cr
    } else if k == 1 {
        p[0] > cr
    } else if k == 2 {
        p[1] > cc
    } else {
        p[1] < cc
    }
}

/// How many of `cells` lie in half-plane `k` around `(cr, cc)`.
pub open spec fn half_plane_count(cells: Seq<[usize; 2]>, cr: int, cc: int, k: int) -> int
    decreases cells.len(),
{
    if cells.len() == 0 {
        0
    } else {
        half_plane_count(cells.drop_last(), cr, cc, k) + if in_half_plane(cells.last(), cr, cc, k) {
            1int
        } else {
            0int
        }
    }
}

/// The compass count for half-plane `k`: 0 up, 1 down, 2 right, 3 left.
pub open spec fn compass_limit(comp: CompassClue, k: int) -> Option<i64> {
    if k == 0 {
        comp.up
    } else if k == 1 {
        comp.down
    } else if k == 2 {
        comp.right
    } else {
        comp.left
    }
}

/// Every given direction of `comp` is met exactly by `counts`.
pub open spec fn counts_meet(comp: CompassClue, counts: [usize; 4]) -> bool {
    forall|k: int|
        0 <= k < 4 ==> match #[trigger] compass_limit(comp, k) {
            Some(v) => counts[k] as i64 == v,
            None => true,
        }
}

/// `s` with cell `(r, c)` appended when it is on the board and open.
pub open spec fn keep_open(p: Puzzle, s: Seq<[usize; 2]>, r: int, c: int) -> Seq<[usize; 2]> {
    if 0 <= r < p.height && 0 <= c < p.width && !p.cell(r, c).blocked {
        s.push([r as usize, c as usize])
    } else {
        s
    }
}

/// The open cells touching grid corner `(r, c)`, in the order up-left,
/// up-right, down-left, down-right (a border corner touches two, a board
/// corner one).
pub open spec fn corner_cells(p: Puzzle, r: int, c: int) -> Seq<[usize; 2]> {
    keep_open(
        p,
        keep_open(p, keep_open(p, keep_open(p, Seq::empty(), r - 1, c - 1), r - 1, c), r, c - 1),
        r,
        c,
    )
}

/// The watchtower entry of corner `(r, c)`: its touching cells and value,
/// for a value from 1 to 4.
pub open spec fn tower_at(p: Puzzle, r: int, c: int) -> Option<(Seq<[usize; 2]>, usize)> {
    match p.vertices@[r]@[c].watchtower {
        Some(v) => if 1 <= v <= 4 {
            Some((corner_cells(p, r, c), v as usize))
        } else {
            None
        },
        None => None,
    }
}

/// The watchtower entries of corners `(r, 0)` to `(r, c - 1)`.
pub open spec fn tower_row(p: Puzzle, r: int, c: int) -> Seq<(Seq<[usize; 2]>, usize)>
    decreases c,
{
    if c <= 0 {
        Seq::empty()
    } else {
        let t = tower_row(p, r, c - 1);
        match tower_at(p, r, c - 1) {
            Some(x) => t.push(x),
            None => t,
        }
    }
}

/// The watchtower entries of corner rows `0` to `r - 1`, row by row.
pub open spec fn tower_rows(p: Puzzle, r: int) -> Seq<(Seq<[usize; 2]>, usize)>
    decreases r,
{
    if r <= 0 {
        Seq::empty()
    } else {
        tower_rows(p, r - 1) + tower_row(p, r - 1, p.width + 1)
    }
}

/// `v` holds the entries of `t`.
pub open spec fn table_holds(v: Seq<(Vec<[usize; 2]>, usize)>, t: Seq<(Seq<[usize; 2]>, usize)>) -> bool {
    &&& v.len() == t.len()
    &&& forall|i: int| 0 <= i < v.len() ==> (#[trigger] v[i]).0@ == t[i].0 && v[i].1 == t[i].1
}

fn keep_open_cell(puzzle: &Puzzle, cells: &mut Vec<[usize; 2]>, r: usize, c: usize)
    requires
        puzzle.wf(),
    ensures
        final(cells)@ == keep_open(*puzzle, old(cells)@, r as int, c as int),
{
    if r < puzzle.height && c < puzzle.width && !puzzle.cells[r][c].blocked {
        cells.push([r, c]);
    }
}

/// The open cells touching grid corner `(r, c)` (see `corner_cells`).
pub fn corner_open_cells(puzzle: &Puzzle, r: usize, c: usize) -> (cells: Vec<[usize; 2]>)
    requires
        puzzle.wf(),
        r <= puzzle.height,
        c <= puzzle.width,
    ensures
        cells@ == corner_cells(*puzzle, r as int, c as int),
{
    let mut cells: Vec<[usize; 2]> = Vec::new();
    let ghost s0 = cells@;
    if r >= 1 && c >= 1 {
        keep_open_cell(puzzle, &mut cells, r - 1, c - 1);
    }
    proof {
        assert(cells@ == keep_open(*puzzle, s0, r - 1, c - 1));
    }
    let ghost s1 = cells@;
    if r >= 1 {
        keep_open_cell(puzzle, &mut cells, r - 1, c);
    }
    proof {
        assert(cells@ == keep_open(*puzzle, s1, r - 1, c as int));
    }
    let ghost s2 = cells@;
    if c >= 1 {
        keep_open_cell(puzzle, &mut cells, r, c - 1);
    }
    proof {
        assert(cells@ == keep_open(*puzzle, s2, r as int, c - 1));
    }
    keep_open_cell(puzzle, &mut cells, r, c);
    cells
}

/// The watchtower table: for every grid corner, row by row, that holds a
/// watchtower value from 1 to 4, the open cells touching it and the value.
pub fn collect_watchtower_data(puzzle: &Puzzle) -> (out: Vec<(Vec<[usize; 2]>, usize)>)
    requires
        puzzle.wf(),
    ensures
        table_holds(out@, tower_rows(*puzzle, puzzle.height + 1)),
{
    proof {
        let hh = puzzle.height + 1;
        let ww = puzzle.width + 1;
        assert(hh <= hh * ww && ww <= hh * ww) by (nonlinear_arith)
            requires
                hh >= 1,
                ww >= 1,
        ;
    }
    let mut out: Vec<(Vec<[usize; 2]>, usize)> = Vec::new();
    let mut r: usize = 0;
    while r <= puzzle.height
        invariant
            puzzle.wf(),
            puzzle.height + 2 <= usize::MAX,
            puzzle.width + 2 <= usize::MAX,
            r <= puzzle.height + 1,
            table_holds(out@, tower_rows(*puzzle, r as int)),
        decreases puzzle.height + 1 - r,
    {
        let ghost base = out@;
        let ghost tb = tower_rows(*puzzle, r as int);
        let mut c: usize = 0;
        while c <= puzzle.width
            invariant
                puzzle.wf(),
                puzzle.height + 2 <= usize::MAX,
                puzzle.width + 2 <= usize::MAX,
                r <= puzzle.height,
                c <= puzzle.width + 1,
                base.len() == tb.len(),
                out@.len() >= base.len(),
                forall|i: int| 0 <= i < base.len() ==> out@[i] == base[i],
                table_holds(base, tb),
                table_holds(out@, tb + tower_row(*puzzle, r as int, c as int)),
            decreases puzzle.width + 1 - c,
        {
            let ghost before = out@;
            let ghost tr = tb + tower_row(*puzzle, r as int, c as int);
            match puzzle.vertices[r][c].watchtower {
                Some(val) => {
                    if 1 <= val && val <= 4 {
                        let cells = corner_open_cells(puzzle, r, c);
                        out.push((cells, val as usize));
                        proof {
                            let tn = tb + tower_row(*puzzle, r as int, c + 1);
                            assert(tn == tr.push((corner_cells(*puzzle, r as int, c as int), val as usize)));
                            assert forall|i: int| 0 <= i < out@.len() implies (#[trigger] out@[i]).0@ == tn[i].0 && out@[i].1
                                == tn[i].1 by {
                                if i < before.len() {
                                    assert(out@[i] == before[i]);
                                }
                            }
                        }
                    } else {
                        proof {
                            assert(tb + tower_row(*puzzle, r as int, c + 1) == tr);
                        }
                    }
                },
                None => {
                    proof {
                        assert(tb + tower_row(*puzzle, r as int, c + 1) == tr);
                    }
                },
            }
            c = c + 1;
        }
        proof {
            assert(tower_rows(*puzzle, r + 1) == tb + tower_row(*puzzle, r as int, puzzle.width + 1));
        }
        r = r + 1;
    }
    out
}

/// An entry of the edge-constraint table: the two cells either side of the
/// edge, the constraint type and its value.
pub type EdgeConsEntry = ([usize; 2], [usize; 2], EdgeConstraintType, Option<i64>);

/// The constraint of the edge right of cell `(r, c)` (`horiz`) or below it.
pub open spec fn cons_at(p: Puzzle, horiz: bool, r: int, c: int) -> Option<EdgeConsEntry> {
    let e = if horiz {
        p.h_edges@[r]@[c]
    } else {
        p.v_edges@[r]@[c]
    };
    match e.constraint {
        Some(ec) => Some(
            (
                [r as usize, c as usize],
                if horiz {
                    [r as usize, (c + 1) as usize]
                } else {
                    [(r + 1) as usize, c as usize]
                },
                ec.ctype,
                ec.value,
            ),
        ),
        None => None,
    }
}

/// The constraints of edges `(r, 0)` to `(r, c - 1)` of one orientation.
pub open spec fn cons_row(p: Puzzle, horiz: bool, r: int, c: int) -> Seq<EdgeConsEntry>
    decreases c,
{
    if c <= 0 {
        Seq::empty()
    } else {
        let t = cons_row(p, horiz, r, c - 1);
        match cons_at(p, horiz, r, c - 1) {
            Some(x) => t.push(x),
            None => t,
        }
    }
}

/// The constraints of edge rows `0` to `r - 1` of one orientation, `cols`
/// edges per row.
pub open spec fn cons_rows(p: Puzzle, horiz: bool, r: int, cols: int) -> Seq<EdgeConsEntry>
    decreases r,
{
    if r <= 0 {
        Seq::empty()
    } else {
        cons_rows(p, horiz, r - 1, cols) + cons_row(p, horiz, r - 1, cols)
    }
}

/// `n - 1`, but not below 0.
pub open spec fn sat_dec(n: int) -> int {
    if n >= 1 {
        n - 1
    } else {
        0
    }
}

fn push_constraints(puzzle: &Puzzle, out: &mut Vec<EdgeConsEntry>, horiz: bool, rows: usize, cols: usize)
    requires
        puzzle.wf(),
        rows <= puzzle.height,
        cols <= puzzle.width,
        horiz ==> rows <= puzzle.h_edges@.len() && forall|r: int| 0 <= r < rows ==> cols <= (#[trigger] puzzle.h_edges@[r])@.len(),
        !horiz ==> rows <= puzzle.v_edges@.len() && forall|r: int| 0 <= r < rows ==> cols <= (#[trigger] puzzle.v_edges@[r])@.len(),
    ensures
        final(out)@ == old(out)@ + cons_rows(*puzzle, horiz, rows as int, cols as int),
{
    proof {
        let hh = puzzle.height + 1;
        let ww = puzzle.width + 1;
        assert(hh <= hh * ww && ww <= hh * ww) by (nonlinear_arith)
            requires
                hh >= 1,
                ww >= 1,
        ;
    }
    let ghost o = old(out)@;
    let mut r: usize = 0;
    while r < rows
        invariant
            puzzle.wf(),
            rows <= puzzle.height,
            cols <= puzzle.width,
            puzzle.height + 2 <= usize::MAX,
            puzzle.width + 2 <= usize::MAX,
            horiz ==> rows <= puzzle.h_edges@.len() && forall|r: int| 0 <= r < rows ==> cols <= (#[trigger] puzzle.h_edges@[r])@.len(),
            !horiz ==> rows <= puzzle.v_edges@.len() && forall|r: int| 0 <= r < rows ==> cols <= (#[trigger] puzzle.v_edges@[r])@.len(),
            r <= rows,
            out@ == o + cons_rows(*puzzle, horiz, r as int, cols as int),
        decreases rows - r,
    {
        let ghost base = out@;
        let mut c: usize = 0;
        while c < cols
            invariant
                puzzle.wf(),
                rows <= puzzle.height,
                cols <= puzzle.width,
                puzzle.height + 2 <= usize::MAX,
                puzzle.width + 2 <= usize::MAX,
                horiz ==> rows <= puzzle.h_edges@.len() && forall|r: int| 0 <= r < rows ==> cols <= (#[trigger] puzzle.h_edges@[r])@.len(),
                !horiz ==> rows <= puzzle.v_edges@.len() && forall|r: int| 0 <= r < rows ==> cols <= (#[trigger] puzzle.v_edges@[r])@.len(),
                r < rows,
                c <= cols,
                out@ == base + cons_row(*puzzle, horiz, r as int, c as int),
            decreases cols - c,
        {
            let ghost before = out@;
            let con = if horiz {
                puzzle.h_edges[r][c].constraint
            } else {
                puzzle.v_edges[r][c].constraint
            };
            match con {
                Some(ec) => {
                    let other = if horiz {
                        [r, c + 1]
                    } else {
                        [r + 1, c]
                    };
                    out.push(([r, c], other, ec.ctype, ec.value));
                    proof {
                        assert(out@ == before.push(([r, c], other, ec.ctype, ec.value)));
                    }
                },
                None => {},
            }
            c = c + 1;
        }
        proof {
            assert(out@ == o + cons_rows(*puzzle, horiz, r + 1, cols as int));
        }
        r = r + 1;
    }
}

/// The edge-constraint table: every constrained edge between horizontal
/// neighbours, row by row, then every one between vertical neighbours, each
/// with its two cells (the left or upper one first), type and value.
pub fn collect_edge_constraints_data(puzzle: &Puzzle) -> (out: Vec<EdgeConsEntry>)
    requires
        puzzle.wf(),
    ensures
        out@ == cons_rows(*puzzle, true, puzzle.height as int, sat_dec(puzzle.width as int)) + cons_rows(
            *puzzle,
            false,
            sat_dec(puzzle.height as int),
            puzzle.width as int,
        ),
{
    let mut out: Vec<EdgeConsEntry> = Vec::new();
    let wm = if puzzle.width >= 1 {
        puzzle.width - 1
    } else {
        0
    };
    let hm = if puzzle.height >= 1 {
        puzzle.height - 1
    } else {
        0
    };
    push_constraints(puzzle, &mut out, true, puzzle.height, wm);
    push_constraints(puzzle, &mut out, false, hm, puzzle.width);
    proof {
        assert(out@ == Seq::<EdgeConsEntry>::empty() + cons_rows(*puzzle, true, puzzle.height as int, wm as int) + cons_rows(
            *puzzle,
            false,
            hm as int,
            puzzle.width as int,
        ));
    }
    out
}

/// The index of cell `p` in the cell numbering `idx`.
pub open spec fn cell_index(idx: Seq<Vec<usize>>, p: [usize; 2]) -> usize {
    idx[p[0] as int]@[p[1] as int]
}

/// Cell `p` has an index in `idx`.
pub open spec fn indexable(idx: Seq<Vec<usize>>, p: [usize; 2]) -> bool {
    p[0] < idx.len() && p[1] < idx[p[0] as int]@.len()
}

/// The row holding cell index `i`, if one does.
pub open spec fn row_of(rows: Map<usize, usize>, i: usize) -> Option<usize> {
    if rows.contains_key(i) {
        Some(rows[i])
    } else {
        None
    }
}

/// No edge constraint has both its cells in one chosen row.
pub open spec fn econs_hold(econs: Seq<EdgeConsEntry>, idx: Seq<Vec<usize>>, rows: Map<usize, usize>) -> bool {
    forall|i: int|
        0 <= i < econs.len() ==> !(row_of(rows, cell_index(idx, (#[trigger] econs[i]).0)) is Some && row_of(
            rows,
            cell_index(idx, econs[i].0),
        ) == row_of(rows, cell_index(idx, econs[i].1)))
}

fn row_lookup(cell_row: &HashMap<usize, usize>, i: usize) -> (r: Option<usize>)
    ensures
        r == row_of(cell_row@, i),
{
    proof {
        broadcast use vstd::std_specs::hash::group_hash_axioms;
    }
    match cell_row.get(&i) {
        Some(v) => Some(*v),
        None => None,
    }
}

/// Whether the chosen rows (`cell_row` maps a cell index to its row) keep
/// every edge constraint's two cells apart.
pub fn econs_rows_ok(econs: &Vec<EdgeConsEntry>, cell_to_idx: &Vec<Vec<usize>>, cell_row: &HashMap<usize, usize>) -> (b: bool)
    requires
        forall|i: int|
            0 <= i < econs@.len() ==> indexable(cell_to_idx@, (#[trigger] econs@[i]).0) && indexable(
                cell_to_idx@,
                econs@[i].1,
            ),
    ensures
        b == econs_hold(econs@, cell_to_idx@, cell_row@),
{
    let mut i: usize = 0;
    while i < econs.len()
        invariant
            forall|i: int|
                0 <= i < econs@.len() ==> indexable(cell_to_idx@, (#[trigger] econs@[i]).0) && indexable(
                    cell_to_idx@,
                    econs@[i].1,
                ),
            i <= econs@.len(),
            econs_hold(econs@.take(i as int), cell_to_idx@, cell_row@),
        decreases econs@.len() - i,
    {
        let (c1, c2, _, _) = econs[i];
        proof {
            assert(indexable(cell_to_idx@, c1) && indexable(cell_to_idx@, c2));
        }
        let i1 = cell_to_idx[c1[0]][c1[1]];
        let i2 = cell_to_idx[c2[0]][c2[1]];
        let r1 = row_lookup(cell_row, i1);
        let r2 = row_lookup(cell_row, i2);
        if let (Some(a), Some(b)) = (r1, r2) {
            if a == b {
                proof {
                    assert(econs@[i as int].0 == c1 && econs@[i as int].1 == c2);
                }
                return false;
            }
        }
        proof {
            assert forall|j: int| 0 <= j < i + 1 implies !(row_of(
                cell_row@,
                cell_index(cell_to_idx@, (#[trigger] econs@.take(i + 1)[j]).0),
            ) is Some && row_of(cell_row@, cell_index(cell_to_idx@, econs@.take(i + 1)[j].0)) == row_of(
                cell_row@,
                cell_index(cell_to_idx@, econs@.take(i + 1)[j].1),
            )) by {
                if j < i {
                    assert(econs@.take(i + 1)[j] == econs@.take(i as int)[j]);
                }
            }
        }
        i = i + 1;
    }
    proof {
        assert(econs@.take(i as int) == econs@);
    }
    true
}

/// The rows holding the placed cells among `cells`.
pub open spec fn placed_rows(cells: Seq<[usize; 2]>, idx: Seq<Vec<usize>>, rows: Map<usize, usize>) -> Set<usize> {
    Set::new(
        |x: usize| exists|j: int| 0 <= j < cells.len() && #[trigger] row_of(rows, cell_index(idx, cells[j])) == Some(x),
    )
}

/// How many of `cells` no chosen row holds.
pub open spec fn unplaced(cells: Seq<[usize; 2]>, idx: Seq<Vec<usize>>, rows: Map<usize, usize>) -> int
    decreases cells.len(),
{
    if cells.len() == 0 {
        0
    } else {
        unplaced(cells.drop_last(), idx, rows) + if row_of(rows, cell_index(idx, cells.last())) is None {
            1int
        } else {
            0int
        }
    }
}

/// A watchtower value `val` is still reachable with `d` distinct rows
/// around it and `u` cells yet to place: at least `d` (one more when a cell
/// is still open), at most `d + u`.
pub open spec fn tower_reachable(val: int, d: int, u: int) -> bool {
    (if u > 0 {
        d + 1
    } else {
        d
    }) <= val <= d + u
}

/// Every watchtower value is still reachable under the chosen rows.
pub open spec fn towers_hold(wt: Seq<(Vec<[usize; 2]>, usize)>, idx: Seq<Vec<usize>>, rows: Map<usize, usize>) -> bool {
    forall|i: int|
        0 <= i < wt.len() ==> tower_reachable(
            (#[trigger] wt[i]).1 as int,
            placed_rows(wt[i].0@, idx, rows).len() as int,
            unplaced(wt[i].0@, idx, rows),
        )
}

fn contains_usize(v: &Vec<usize>, x: usize) -> (b: bool)
    ensures
        b == v@.contains(x),
{
    let mut i: usize = 0;
    while i < v.len()
        invariant
            i <= v@.len(),
            forall|j: int| 0 <= j < i ==> v@[j] != x,
        decreases v@.len() - i,
    {
        if v[i] == x {
            return true;
        }
        i = i + 1;
    }
    false
}

/// The number of distinct rows holding cells of `cells`, and the number of
/// its cells no row holds.
fn tower_counts(cells: &Vec<[usize; 2]>, cell_to_idx: &Vec<Vec<usize>>, cell_row: &HashMap<usize, usize>) -> (r: (
    usize,
    usize,
))
    requires
        forall|j: int| 0 <= j < cells@.len() ==> indexable(cell_to_idx@, #[trigger] cells@[j]),
    ensures
        placed_rows(cells@, cell_to_idx@, cell_row@).finite(),
        r.0 as int == placed_rows(cells@, cell_to_idx@, cell_row@).len(),
        r.1 as int == unplaced(cells@, cell_to_idx@, cell_row@),
{
    let mut seen: Vec<usize> = Vec::new();
    let mut u: usize = 0;
    let mut j: usize = 0;
    while j < cells.len()
        invariant
            forall|j: int| 0 <= j < cells@.len() ==> indexable(cell_to_idx@, #[trigger] cells@[j]),
            j <= cells@.len(),
            seen@.no_duplicates(),
            seen@.to_set() == placed_rows(cells@.take(j as int), cell_to_idx@, cell_row@),
            u as int == unplaced(cells@.take(j as int), cell_to_idx@, cell_row@),
            u <= j,
        decreases cells@.len() - j,
    {
        let x = cells[j];
        proof {
            assert(indexable(cell_to_idx@, x));
            assert(cells@.take(j + 1).drop_last() == cells@.take(j as int));
            assert(cells@.take(j + 1).last() == x);
        }
        let ghost prev = seen@;
        let ghost before = cells@.take(j as int);
        let ghost after = cells@.take(j + 1);
        let id = cell_to_idx[x[0]][x[1]];
        match row_lookup(cell_row, id) {
            Some(rid) => {
                if !contains_usize(&seen, rid) {
                    seen.push(rid);
                }
                proof {
                    assert forall|y: usize| #[trigger] seen@.to_set().contains(y) == placed_rows(after, cell_to_idx@, cell_row@).contains(y) by {
                        if placed_rows(after, cell_to_idx@, cell_row@).contains(y) {
                            let q = choose|q: int| 0 <= q < after.len() && #[trigger] row_of(cell_row@, cell_index(cell_to_idx@, after[q])) == Some(y);
                            if q < j {
                                assert(before[q] == after[q]);
                                assert(placed_rows(before, cell_to_idx@, cell_row@).contains(y));
                                assert(prev.to_set().contains(y));
                                assert(prev.contains(y));
                                let w = choose|w: int| 0 <= w < prev.len() && prev[w] == y;
                                assert(seen@[w] == y);
                            } else {
                                assert(y == rid);
                                if !prev.contains(rid) {
                                    assert(seen@[seen@.len() - 1] == rid);
                                } else {
                                    let w = choose|w: int| 0 <= w < prev.len() && prev[w] == y;
                                    assert(seen@[w] == y);
                                }
                            }
                        }
                        if seen@.to_set().contains(y) {
                            let w = choose|w: int| 0 <= w < seen@.len() && seen@[w] == y;
                            if w < prev.len() {
                                assert(prev[w] == y);
                                assert(prev.to_set().contains(y));
                                assert(placed_rows(before, cell_to_idx@, cell_row@).contains(y));
                                let q = choose|q: int| 0 <= q < before.len() && #[trigger] row_of(cell_row@, cell_index(cell_to_idx@, before[q])) == Some(y);
                                assert(after[q] == before[q]);
                            } else {
                                assert(y == rid);
                                assert(after[j as int] == x);
                                assert(row_of(cell_row@, cell_index(cell_to_idx@, after[j as int])) == Some(y));
                            }
                        }
                    }
                    assert(seen@.to_set() =~= placed_rows(after, cell_to_idx@, cell_row@));
                }
            },
            None => {
                u = u + 1;
                proof {
                    assert forall|y: usize| #[trigger] seen@.to_set().contains(y) == placed_rows(after, cell_to_idx@, cell_row@).contains(y) by {
                        if placed_rows(after, cell_to_idx@, cell_row@).contains(y) {
                            let q = choose|q: int| 0 <= q < after.len() && #[trigger] row_of(cell_row@, cell_index(cell_to_idx@, after[q])) == Some(y);
                            if q < j {
                                assert(before[q] == after[q]);
                                assert(placed_rows(before, cell_to_idx@, cell_row@).contains(y));
                            } else {
                                assert(after[q] == x);
                            }
                        }
                        if placed_rows(before, cell_to_idx@, cell_row@).contains(y) {
                            let q = choose|q: int| 0 <= q < before.len() && #[trigger] row_of(cell_row@, cell_index(cell_to_idx@, before[q])) == Some(y);
                            assert(after[q] == before[q]);
                        }
                    }
                    assert(seen@.to_set() =~= placed_rows(after, cell_to_idx@, cell_row@));
                }
            },
        }
        j = j + 1;
    }
    proof {
        assert(cells@.take(j as int) == cells@);
        seen@.unique_seq_to_set();
    }
    (seen.len(), u)
}

/// Whether every watchtower value is still reachable under the chosen
/// rows (see `tower_reachable`).
pub fn watchtower_rows_ok(
    wt: &Vec<(Vec<[usize; 2]>, usize)>,
    cell_to_idx: &Vec<Vec<usize>>,
    cell_row: &HashMap<usize, usize>,
) -> (b: bool)
    requires
        forall|i: int, j: int|
            0 <= i < wt@.len() && 0 <= j < wt@[i].0@.len() ==> indexable(cell_to_idx@, #[trigger] wt@[i].0@[j]),
    ensures
        b == towers_hold(wt@, cell_to_idx@, cell_row@),
{
    let mut i: usize = 0;
    while i < wt.len()
        invariant
            forall|i: int, j: int|
                0 <= i < wt@.len() && 0 <= j < wt@[i].0@.len() ==> indexable(cell_to_idx@, #[trigger] wt@[i].0@[j]),
            i <= wt@.len(),
            forall|k: int|
                0 <= k < i ==> tower_reachable(
                    (#[trigger] wt@[k]).1 as int,
                    placed_rows(wt@[k].0@, cell_to_idx@, cell_row@).len() as int,
                    unplaced(wt@[k].0@, cell_to_idx@, cell_row@),
                ),
        decreases wt@.len() - i,
    {
        let (d, u) = tower_counts(&wt[i].0, cell_to_idx, cell_row);
        let val = wt[i].1;
        proof {
            assert(u <= wt@[i as int].0@.len()) by {
                lemma_unplaced_bound(wt@[i as int].0@, cell_to_idx@, cell_row@);
            }
        }
        let lo = if u > 0 {
            d as u128 + 1
        } else {
            d as u128
        };
        let hi = d as u128 + u as u128;
        if (val as u128) < lo || (val as u128) > hi {
            return false;
        }
        i = i + 1;
    }
    true
}

proof fn lemma_unplaced_bound(cells: Seq<[usize; 2]>, idx: Seq<Vec<usize>>, rows: Map<usize, usize>)
    ensures
        0 <= unplaced(cells, idx, rows) <= cells.len(),
    decreases cells.len(),
{
    if cells.len() > 0 {
        lemma_unplaced_bound(cells.drop_last(), idx, rows);
    }
}

/// The chosen rows `partial` have pairwise different shape keys.
pub open spec fn keys_distinct(keys: Seq<String>, partial: Seq<usize>) -> bool {
    forall|i: int, j: int|
        0 <= i < j < partial.len() ==> (#[trigger] keys[partial[i] as int])@ != (#[trigger] keys[partial[j] as int])@
}

/// Whether the chosen rows have pairwise different shapes, when the rules
/// ask for that (`need_distinct`); always true otherwise.
pub fn distinct_rows_ok(need_distinct: bool, keys: &[String], partial: &[usize]) -> (b: bool)
    requires
        forall|i: int| 0 <= i < partial@.len() ==> #[trigger] partial@[i] < keys@.len(),
    ensures
        b == (!need_distinct || keys_distinct(keys@, partial@)),
{
    if !need_distinct {
        return true;
    }
    let mut i: usize = 0;
    while i < partial.len()
        invariant
            forall|i: int| 0 <= i < partial@.len() ==> #[trigger] partial@[i] < keys@.len(),
            need_distinct,
            i <= partial@.len(),
            forall|a: int, b: int|
                0 <= a < i && a < b < partial@.len() ==> (#[trigger] keys@[partial@[a] as int])@ != (#[trigger] keys@[partial@[b] as int])@,
        decreases partial@.len() - i,
    {
        let mut j: usize = i + 1;
        while j < partial.len()
            invariant
                forall|i: int| 0 <= i < partial@.len() ==> #[trigger] partial@[i] < keys@.len(),
                need_distinct,
                i < partial@.len(),
                i + 1 <= j <= partial@.len(),
                forall|a: int, b: int|
                    0 <= a < i && a < b < partial@.len() ==> (#[trigger] keys@[partial@[a] as int])@ != (#[trigger] keys@[partial@[b] as int])@,
                forall|b: int| i < b < j ==> (keys@[partial@[i as int] as int])@ != (#[trigger] keys@[partial@[b] as int])@,
            decreases partial@.len() - j,
        {
            if keys[partial[i]] == keys[partial[j]] {
                proof {
                    assert((keys@[partial@[i as int] as int])@ == (keys@[partial@[j as int] as int])@);
                    assert(!keys_distinct(keys@, partial@));
                }
                return false;
            }
            j = j + 1;
        }
        i = i + 1;
    }
    true
}

/// The symbols carried by `cells`, in order (cells without one skipped).
pub open spec fn symbols_of(p: Puzzle, cells: Seq<[usize; 2]>) -> Seq<Seq<char>>
    decreases cells.len(),
{
    if cells.len() == 0 {
        Seq::empty()
    } else {
        let t = symbols_of(p, cells.drop_last());
        match p.cell(cells.last()[0] as int, cells.last()[1] as int).symbol {
            Some(sym) => t.push(sym@),
            None => t,
        }
    }
}

/// How often `x` occurs in `s`.
pub open spec fn occurrences(s: Seq<Seq<char>>, x: Seq<char>) -> int
    decreases s.len(),
{
    if s.len() == 0 {
        0
    } else {
        occurrences(s.drop_last(), x) + if s.last() == x {
            1int
        } else {
            0int
        }
    }
}

/// The region `cells` holds exactly one cell of every symbol type in
/// `types` and no other symbol; no types ask nothing.
pub open spec fn signature_holds(p: Puzzle, cells: Seq<[usize; 2]>, types: Seq<String>) -> bool {
    let syms = symbols_of(p, cells);
    types.len() == 0 || (syms.to_set().len() == types.len() && forall|i: int|
        0 <= i < types.len() ==> occurrences(syms, (#[trigger] types[i])@) == 1)
}

fn contains_text(v: &Vec<String>, x: &String) -> (b: bool)
    ensures
        b == exists|k: int| 0 <= k < v@.len() && (#[trigger] v@[k])@ == x@,
{
    let mut i: usize = 0;
    while i < v.len()
        invariant
            i <= v@.len(),
            forall|k: int| 0 <= k < i ==> (#[trigger] v@[k])@ != x@,
        decreases v@.len() - i,
    {
        if v[i] == *x {
            return true;
        }
        i = i + 1;
    }
    false
}

fn count_text(v: &Vec<String>, x: &String) -> (n: usize)
    ensures
        n as int == occurrences(v@.map_values(|s: String| s@), x@),
{
    let ghost vs = v@.map_values(|s: String| s@);
    let mut n: usize = 0;
    let mut i: usize = 0;
    while i < v.len()
        invariant
            vs == v@.map_values(|s: String| s@),
            i <= v@.len(),
            n <= i,
            n as int == occurrences(vs.take(i as int), x@),
        decreases v@.len() - i,
    {
        proof {
            assert(vs.take(i + 1).drop_last() == vs.take(i as int));
            assert(vs.take(i + 1).last() == v@[i as int]@);
        }
        if v[i] == *x {
            n = n + 1;
        }
        i = i + 1;
    }
    proof {
        assert(vs.take(i as int) == vs);
    }
    n
}

/// Whether the region `cells` holds exactly one cell of every symbol type
/// in `types` and no other symbol (see `signature_holds`).
pub fn rose_signature_ok(puzzle: &Puzzle, cells: &[[usize; 2]], types: &[String]) -> (b: bool)
    requires
        puzzle.wf(),
        forall|i: int| 0 <= i < cells@.len() ==> (#[trigger] cells@[i])[0] < puzzle.height && cells@[i][1] < puzzle.width,
    ensures
        b == signature_holds(*puzzle, cells@, types@),
{
    if types.len() == 0 {
        return true;
    }
    let mut syms: Vec<String> = Vec::new();
    let mut i: usize = 0;
    while i < cells.len()
        invariant
            puzzle.wf(),
            forall|i: int| 0 <= i < cells@.len() ==> (#[trigger] cells@[i])[0] < puzzle.height && cells@[i][1] < puzzle.width,
            i <= cells@.len(),
            syms@.map_values(|s: String| s@) == symbols_of(*puzzle, cells@.take(i as int)),
        decreases cells@.len() - i,
    {
        let x = cells[i];
        proof {
            assert(cells@.take(i + 1).drop_last() == cells@.take(i as int));
            assert(cells@.take(i + 1).last() == x);
        }
        match &puzzle.cells[x[0]][x[1]].symbol {
            Some(sym) => {
                let ghost before = syms@;
                syms.push(sym.clone());
                proof {
                    assert(syms@.map_values(|s: String| s@) == before.map_values(|s: String| s@).push(sym@));
                }
            },
            None => {},
        }
        i = i + 1;
    }
    proof {
        assert(cells@.take(i as int) == cells@);
    }
    let ghost all = syms@.map_values(|s: String| s@);
    let mut seen: Vec<String> = Vec::new();
    let mut j: usize = 0;
    while j < syms.len()
        invariant
            all == syms@.map_values(|s: String| s@),
            j <= syms@.len(),
            seen@.map_values(|s: String| s@).no_duplicates(),
            seen@.map_values(|s: String| s@).to_set() == all.take(j as int).to_set(),
        decreases syms@.len() - j,
    {
        let ghost sv = seen@.map_values(|s: String| s@);
        let ghost before = all.take(j as int);
        let ghost after = all.take(j + 1);
        proof {
            assert(after == before.push(syms@[j as int]@));
        }
        if !contains_text(&seen, &syms[j]) {
            seen.push(syms[j].clone());
            proof {
                let nv = seen@.map_values(|s: String| s@);
                assert(nv == sv.push(syms@[j as int]@));
                assert(!sv.contains(syms@[j as int]@)) by {
                    if sv.contains(syms@[j as int]@) {
                        let k = choose|k: int| 0 <= k < sv.len() && sv[k] == syms@[j as int]@;
                        assert(seen@[k]@ == syms@[j as int]@);
                    }
                }
                assert(nv.no_duplicates());
                assert(nv.to_set() =~= after.to_set()) by {
                    assert forall|y: Seq<char>| nv.to_set().contains(y) == after.to_set().contains(y) by {
                        if nv.contains(y) {
                            let k = choose|k: int| 0 <= k < nv.len() && nv[k] == y;
                            if k < sv.len() {
                                assert(sv[k] == y);
                                assert(sv.to_set().contains(y));
                                assert(before.contains(y));
                                let q = choose|q: int| 0 <= q < before.len() && before[q] == y;
                                assert(after[q] == y);
                            } else {
                                assert(after[j as int] == y);
                            }
                        }
                        if after.contains(y) {
                            let q = choose|q: int| 0 <= q < after.len() && after[q] == y;
                            if q < j {
                                assert(before[q] == y);
                                assert(before.to_set().contains(y));
                                assert(sv.contains(y));
                                let k = choose|k: int| 0 <= k < sv.len() && sv[k] == y;
                                assert(nv[k] == y);
                            } else {
                                assert(nv[nv.len() - 1] == y);
                            }
                        }
                    }
                }
            }
        } else {
            proof {
                let k = choose|k: int| 0 <= k < seen@.len() && (#[trigger] seen@[k])@ == syms@[j as int]@;
                assert(sv[k] == syms@[j as int]@);
                assert(sv.to_set() =~= after.to_set()) by {
                    assert forall|y: Seq<char>| sv.to_set().contains(y) == after.to_set().contains(y) by {
                        if sv.contains(y) {
                            assert(before.to_set().contains(y));
                            let q = choose|q: int| 0 <= q < before.len() && before[q] == y;
                            assert(after[q] == y);
                        }
                        if after.contains(y) {
                            let q = choose|q: int| 0 <= q < after.len() && after[q] == y;
                            if q < j {
                                assert(before[q] == y);
                                assert(before.to_set().contains(y));
                            } else {
                                assert(sv.contains(y));
                            }
                        }
                    }
                }
            }
        }
        j = j + 1;
    }
    proof {
        assert(all.take(j as int) == all);
        seen@.map_values(|s: String| s@).unique_seq_to_set();
    }
    if seen.len() != types.len() {
        return false;
    }
    let mut t: usize = 0;
    while t < types.len()
        invariant
            all == syms@.map_values(|s: String| s@),
            all == symbols_of(*puzzle, cells@),
            all.to_set().len() == types@.len(),
            t <= types@.len(),
            forall|k: int| 0 <= k < t ==> occurrences(all, (#[trigger] types@[k])@) == 1,
        decreases types@.len() - t,
    {
        let n = count_text(&syms, &types[t]);
        if n != 1 {
            return false;
        }
        t = t + 1;
    }
    true
}

/// A candidate region for the exact cover: its cells, area, shape and the
/// indices of its cells.
#[derive(Clone, Debug)]
pub struct Placement {
    pub cells: Vec<[usize; 2]>,
    pub area: usize,
    pub shape: Vec<[usize; 2]>,
    pub cell_ids_flat: Vec<usize>,
}

/// The cell clues of one placement hold: an area number equals its area, a
/// compass is met exactly (`compass_row_holds`), and a shape pattern cell in
/// it has its key.
pub open spec fn clues_hold_for(
    p: Puzzle,
    pl: Placement,
    key: Seq<char>,
    pat_keys: Seq<(usize, usize, String)>,
) -> bool {
    &&& forall|j: int|
        0 <= j < pl.cells@.len() ==> match #[trigger] p.cell(pl.cells@[j][0] as int, pl.cells@[j][1] as int).number {
            Some(n) => pl.area == n as usize,
            None => true,
        }
    &&& forall|j: int|
        0 <= j < pl.cells@.len() ==> match #[trigger] p.cell(pl.cells@[j][0] as int, pl.cells@[j][1] as int).compass {
            Some(comp) => compass_row_holds(comp, pl.cells@, pl.cells@[j][0] as int, pl.cells@[j][1] as int),
            None => true,
        }
    &&& forall|k: int|
        0 <= k < pat_keys.len() ==> (pl.cells@.contains([(#[trigger] pat_keys[k]).0, pat_keys[k].1]) ==> key
            == pat_keys[k].2@)
}

fn placement_clues_ok(puzzle: &Puzzle, pl: &Placement, key: &String, pat_keys: &[(usize, usize, String)]) -> (b: bool)
    requires
        puzzle.wf(),
        forall|j: int| 0 <= j < pl.cells@.len() ==> (#[trigger] pl.cells@[j])[0] < puzzle.height && pl.cells@[j][1] < puzzle.width,
    ensures
        b == clues_hold_for(*puzzle, *pl, key@, pat_keys@),
{
    let mut j: usize = 0;
    while j < pl.cells.len()
        invariant
            puzzle.wf(),
            forall|j: int| 0 <= j < pl.cells@.len() ==> (#[trigger] pl.cells@[j])[0] < puzzle.height && pl.cells@[j][1] < puzzle.width,
            j <= pl.cells@.len(),
            forall|q: int|
                0 <= q < j ==> match #[trigger] puzzle.cell(pl.cells@[q][0] as int, pl.cells@[q][1] as int).number {
                    Some(n) => pl.area == n as usize,
                    None => true,
                },
            forall|q: int|
                0 <= q < j ==> match #[trigger] puzzle.cell(pl.cells@[q][0] as int, pl.cells@[q][1] as int).compass {
                    Some(comp) => compass_row_holds(comp, pl.cells@, pl.cells@[q][0] as int, pl.cells@[q][1] as int),
                    None => true,
                },
        decreases pl.cells@.len() - j,
    {
        let x = pl.cells[j];
        proof {
            assert(x[0] < puzzle.height && x[1] < puzzle.width);
        }
        let cell = &puzzle.cells[x[0]][x[1]];
        if let Some(n) = cell.number {
            if pl.area != n as usize {
                proof {
                    assert(puzzle.cell(pl.cells@[j as int][0] as int, pl.cells@[j as int][1] as int).number == Some(n));
                }
                return false;
            }
        }
        if let Some(comp) = &cell.compass {
            if !compass_row_ok(comp, pl.cells.as_slice(), x[0], x[1]) {
                proof {
                    assert(puzzle.cell(pl.cells@[j as int][0] as int, pl.cells@[j as int][1] as int).compass == Some(*comp));
                }
                return false;
            }
        }
        j = j + 1;
    }
    let mut k: usize = 0;
    while k < pat_keys.len()
        invariant
            k <= pat_keys@.len(),
            forall|q: int|
                0 <= q < k ==> (pl.cells@.contains([(#[trigger] pat_keys@[q]).0, pat_keys@[q].1]) ==> key@ == pat_keys@[q].2@),
        decreases pat_keys@.len() - k,
    {
        let (pr, pc, pk) = &pat_keys[k];
        if contains_cell(&pl.cells, [*pr, *pc]) && *key != *pk {
            return false;
        }
        k = k + 1;
    }
    true
}

/// Every chosen row meets the cell clues it covers (see `clues_hold_for`).
pub fn cell_clue_rows_ok(
    puzzle: &Puzzle,
    placements: &[Placement],
    keys: &[String],
    pat_keys: &[(usize, usize, String)],
    partial: &[usize],
) -> (b: bool)
    requires
        puzzle.wf(),
        forall|i: int| 0 <= i < partial@.len() ==> #[trigger] partial@[i] < placements@.len() && partial@[i] < keys@.len(),
        forall|r: int, j: int|
            0 <= r < placements@.len() && 0 <= j < placements@[r].cells@.len() ==> (#[trigger] placements@[r].cells@[j])[0]
                < puzzle.height && placements@[r].cells@[j][1] < puzzle.width,
    ensures
        b == forall|i: int|
            0 <= i < partial@.len() ==> clues_hold_for(
                *puzzle,
                placements@[#[trigger] partial@[i] as int],
                keys@[partial@[i] as int]@,
                pat_keys@,
            ),
{
    let mut i: usize = 0;
    while i < partial.len()
        invariant
            puzzle.wf(),
            forall|i: int| 0 <= i < partial@.len() ==> #[trigger] partial@[i] < placements@.len() && partial@[i] < keys@.len(),
            forall|r: int, j: int|
                0 <= r < placements@.len() && 0 <= j < placements@[r].cells@.len() ==> (#[trigger] placements@[r].cells@[j])[0]
                    < puzzle.height && placements@[r].cells@[j][1] < puzzle.width,
            i <= partial@.len(),
            forall|q: int|
                0 <= q < i ==> clues_hold_for(
                    *puzzle,
                    placements@[#[trigger] partial@[q] as int],
                    keys@[partial@[q] as int]@,
                    pat_keys@,
                ),
        decreases partial@.len() - i,
    {
        let rid = partial[i];
        proof {
            assert(rid < placements@.len() && rid < keys@.len());
            assert forall|j: int| 0 <= j < placements@[rid as int].cells@.len() implies (#[trigger] placements@[rid as int].cells@[j])[0]
                < puzzle.height && placements@[rid as int].cells@[j][1] < puzzle.width by {}
        }
        if !placement_clues_ok(puzzle, &placements[rid], &keys[rid], pat_keys) {
            return false;
        }
        i = i + 1;
    }
    true
}

/// The half-plane counts of `cells` around `(r, c)` agree with every
/// non-negative count the compass gives; a negative count asks nothing.
pub open spec fn compass_row_holds(comp: CompassClue, cells: Seq<[usize; 2]>, r: int, c: int) -> bool {
    forall|k: int|
        0 <= k < 4 ==> match #[trigger] compass_limit(comp, k) {
            Some(v) => v < 0 || half_plane_count(cells, r, c, k) == v,
            None => true,
        }
}

fn limit_met(want: Option<i64>, count: usize) -> (b: bool)
    ensures
        b == match want {
            Some(v) => v < 0 || count as int == v as int,
            None => true,
        },
{
    match want {
        Some(v) => v < 0 || (count as i128) == (v as i128),
        None => true,
    }
}

/// Whether the region `cells` (a whole region) meets the compass clue at
/// `(r, c)` exactly: every direction with a non-negative count has that many
/// cells strictly on its side.
pub fn compass_row_ok(comp: &CompassClue, cells: &[[usize; 2]], r: usize, c: usize) -> (b: bool)
    ensures
        b == compass_row_holds(*comp, cells@, r as int, c as int),
{
    let mut n: usize = 0;
    let mut s: usize = 0;
    let mut e: usize = 0;
    let mut w: usize = 0;
    let mut i: usize = 0;
    while i < cells.len()
        invariant
            i <= cells@.len(),
            n == half_plane_count(cells@.take(i as int), r as int, c as int, 0),
            s == half_plane_count(cells@.take(i as int), r as int, c as int, 1),
            e == half_plane_count(cells@.take(i as int), r as int, c as int, 2),
            w == half_plane_count(cells@.take(i as int), r as int, c as int, 3),
            n <= i && s <= i && e <= i && w <= i,
        decreases cells@.len() - i,
    {
        let x = cells[i];
        proof {
            assert(cells@.take(i + 1).drop_last() == cells@.take(i as int));
            assert(cells@.take(i + 1).last() == x);
        }
        if x[0] < r {
            n = n + 1;
        }
        if x[0] > r {
            s = s + 1;
        }
        if x[1] > c {
            e = e + 1;
        }
        if x[1] < c {
            w = w + 1;
        }
        i = i + 1;
    }
    proof {
        assert(cells@.take(i as int) == cells@);
    }
    let bu = limit_met(comp.up, n);
    let bd = limit_met(comp.down, s);
    let br = limit_met(comp.right, e);
    let bl = limit_met(comp.left, w);
    let b = bu && bd && br && bl;
    proof {
        if b {
            assert forall|k: int| 0 <= k < 4 implies match #[trigger] compass_limit(*comp, k) {
                Some(v) => v < 0 || half_plane_count(cells@, r as int, c as int, k) == v,
                None => true,
            } by {
                if k == 0 {
                } else if k == 1 {
                } else if k == 2 {
                } else {
                }
            }
        } else {
            if !bu {
                assert(!match compass_limit(*comp, 0) {
                    Some(v) => v < 0 || half_plane_count(cells@, r as int, c as int, 0) == v,
                    None => true,
                });
            } else if !bd {
                assert(!match compass_limit(*comp, 1) {
                    Some(v) => v < 0 || half_plane_count(cells@, r as int, c as int, 1) == v,
                    None => true,
                });
            } else if !br {
                assert(!match compass_limit(*comp, 2) {
                    Some(v) => v < 0 || half_plane_count(cells@, r as int, c as int, 2) == v,
                    None => true,
                });
            } else {
                assert(!match compass_limit(*comp, 3) {
                    Some(v) => v < 0 || half_plane_count(cells@, r as int, c as int, 3) == v,
                    None => true,
                });
            }
        }
    }
    b
}

/// A region the compass clue at `(sr, sc)` allows: distinct open cells on
/// the grid, holding the clue cell, with exactly the given number of cells in
/// each constrained half-plane.
pub open spec fn compass_region_ok(p: Puzzle, sr: int, sc: int, comp: CompassClue, cells: Seq<[usize; 2]>) -> bool {
    &&& cells.no_duplicates()
    &&& cells.contains([sr as usize, sc as usize])
    &&& forall|i: int|
        0 <= i < cells.len() ==> (#[trigger] cells[i])[0] < p.height && cells[i][1] < p.width
            && !p.cell(cells[i][0] as int, cells[i][1] as int).blocked
    &&& forall|k: int|
        0 <= k < 4 ==> match #[trigger] compass_limit(comp, k) {
            Some(v) => half_plane_count(cells, sr, sc, k) as i64 == v,
            None => true,
        }
}

/// `a` and `b` hold the same cells (both duplicate-free).
pub open spec fn same_cells(a: Seq<[usize; 2]>, b: Seq<[usize; 2]>) -> bool {
    a.len() == b.len() && forall|i: int| 0 <= i < a.len() ==> b.contains(#[trigger] a[i])
}

fn contains_cell(v: &Vec<[usize; 2]>, x: [usize; 2]) -> (b: bool)
    ensures
        b == v@.contains(x),
{
    let mut i: usize = 0;
    while i < v.len()
        invariant
            i <= v@.len(),
            forall|k: int| 0 <= k < i ==> v@[k] != x,
        decreases v@.len() - i,
    {
        if v[i][0] == x[0] && v[i][1] == x[1] {
            assert(v@[i as int] =~= x);
            return true;
        }
        i = i + 1;
    }
    false
}

fn same_cell_set(a: &Vec<[usize; 2]>, b: &Vec<[usize; 2]>) -> (r: bool)
    ensures
        r == same_cells(a@, b@),
{
    if a.len() != b.len() {
        return false;
    }
    let mut i: usize = 0;
    while i < a.len()
        invariant
            a@.len() == b@.len(),
            i <= a@.len(),
            forall|k: int| 0 <= k < i ==> b@.contains(#[trigger] a@[k]),
        decreases a@.len() - i,
    {
        if !contains_cell(b, a[i]) {
            return false;
        }
        i = i + 1;
    }
    true
}

fn seen_before(visited: &Vec<Vec<[usize; 2]>>, cells: &Vec<[usize; 2]>) -> (r: bool)
    ensures
        r == exists|i: int| 0 <= i < visited@.len() && same_cells(#[trigger] visited@[i]@, cells@),
{
    let mut i: usize = 0;
    while i < visited.len()
        invariant
            i <= visited@.len(),
            forall|k: int| 0 <= k < i ==> !same_cells(#[trigger] visited@[k]@, cells@),
        decreases visited@.len() - i,
    {
        if same_cell_set(&visited[i], cells) {
            return true;
        }
        i = i + 1;
    }
    false
}

/// Lemma: the count of a pushed sequence adds the new cell's membership.
proof fn lemma_half_plane_push(cells: Seq<[usize; 2]>, x: [usize; 2], cr: int, cc: int, k: int)
    ensures
        half_plane_count(cells.push(x), cr, cc, k) == half_plane_count(cells, cr, cc, k) + if in_half_plane(x, cr, cc, k) {
            1int
        } else {
            0int
        },
{
    assert(cells.push(x).drop_last() == cells);
}

proof fn lemma_half_plane_bound(cells: Seq<[usize; 2]>, cr: int, cc: int, k: int)
    ensures
        0 <= half_plane_count(cells, cr, cc, k) <= cells.len(),
    decreases cells.len(),
{
    if cells.len() > 0 {
        lemma_half_plane_bound(cells.drop_last(), cr, cc, k);
    }
}

/// The frontier of a growing region: open cells on the grid outside it.
pub open spec fn frontier_ok(p: Puzzle, current: Seq<[usize; 2]>, frontier: Seq<[usize; 2]>) -> bool {
    forall|i: int|
        0 <= i < frontier.len() ==> (#[trigger] frontier[i])[0] < p.height && frontier[i][1] < p.width
            && !p.cell(frontier[i][0] as int, frontier[i][1] as int).blocked && !current.contains(
            frontier[i],
        )
}

fn frontier_insert(frontier: &mut Vec<[usize; 2]>, x: [usize; 2])
    ensures
        forall|y: [usize; 2]| final(frontier)@.contains(y) <==> (old(frontier)@.contains(y) || y == x),
        forall|i: int| 0 <= i < final(frontier)@.len() ==> (#[trigger] final(frontier)@[i] == x || old(frontier)@.contains(final(frontier)@[i])),
{
    if contains_cell(frontier, x) {
        return;
    }
    let mut i: usize = 0;
    while i < frontier.len()
        invariant
            i <= frontier@.len(),
            *frontier == *old(frontier),
        decreases frontier@.len() - i,
    {
        if frontier[i][0] > x[0] || (frontier[i][0] == x[0] && frontier[i][1] > x[1]) {
            break;
        }
        i = i + 1;
    }
    frontier.insert(i, x);
    proof {
        let f0 = old(frontier)@;
        let f1 = frontier@;
        assert(f1 == f0.insert(i as int, x));
        assert forall|y: [usize; 2]| f1.contains(y) <==> (f0.contains(y) || y == x) by {
            if f0.contains(y) {
                let j = choose|j: int| 0 <= j < f0.len() && f0[j] == y;
                if j < i {
                    assert(f1[j] == y);
                } else {
                    assert(f1[j + 1] == y);
                }
            }
            if y == x {
                assert(f1[i as int] == x);
            }
            if f1.contains(y) {
                let j = choose|j: int| 0 <= j < f1.len() && f1[j] == y;
                if j < i {
                    assert(f0[j] == y);
                } else if j > i {
                    assert(f0[j - 1] == y);
                }
            }
        }
        assert forall|j: int| 0 <= j < f1.len() implies (#[trigger] f1[j] == x || f0.contains(f1[j])) by {
            if j < i {
                assert(f0[j] == f1[j]);
            } else if j > i {
                assert(f0[j - 1] == f1[j]);
            }
        }
    }
}

fn copy_cells(v: &Vec<[usize; 2]>) -> (out: Vec<[usize; 2]>)
    ensures
        out@ == v@,
{
    let mut out: Vec<[usize; 2]> = Vec::new();
    let mut i: usize = 0;
    while i < v.len()
        invariant
            i <= v@.len(),
            out@ == v@.take(i as int),
        decreases v@.len() - i,
    {
        out.push(v[i]);
        proof {
            assert(v@.take(i + 1) == v@.take(i as int).push(v@[i as int]));
        }
        i = i + 1;
    }
    proof {
        assert(v@.take(v@.len() as int) == v@);
    }
    out
}

fn meets(v: Option<i64>, n: usize) -> (b: bool)
    ensures
        b == match v {
            Some(x) => n as i64 == x,
            None => true,
        },
{
    match v {
        Some(x) => n as i64 == x,
        None => true,
    }
}

fn over(v: Option<i64>, n: usize) -> (b: bool)
    ensures
        b == match v {
            Some(x) => n >= x as usize,
            None => false,
        },
{
    match v {
        Some(x) => n >= x as usize,
        None => false,
    }
}

/// A region under construction: distinct open cells on the grid, holding the
/// clue cell `(sr, sc)`.
pub open spec fn growing_region(p: Puzzle, sr: int, sc: int, cells: Seq<[usize; 2]>) -> bool {
    &&& cells.no_duplicates()
    &&& cells.contains([sr as usize, sc as usize])
    &&& forall|i: int|
        0 <= i < cells.len() ==> (#[trigger] cells[i])[0] < p.height && cells[i][1] < p.width
            && !p.cell(cells[i][0] as int, cells[i][1] as int).blocked
}

/// Cells `a` and `b` are side neighbours with no pre-drawn boundary between.
pub open spec fn touches(p: Puzzle, a: [usize; 2], b: [usize; 2]) -> bool {
    &&& grid_neighbours(p, a[0] as int, a[1] as int, b[0] as int, b[1] as int)
    &&& !spec_is_precut(p, a[0] as int, a[1] as int, b[0] as int, b[1] as int)
}

/// Cell `x` is on the board and not blocked.
pub open spec fn open_cell(p: Puzzle, x: [usize; 2]) -> bool {
    x[0] < p.height && x[1] < p.width && !p.cell(x[0] as int, x[1] as int).blocked
}

/// Cell `x` touches some cell of `cells`.
pub open spec fn touches_some(p: Puzzle, cells: Seq<[usize; 2]>, x: [usize; 2]) -> bool {
    exists|j: int| 0 <= j < cells.len() && touches(p, #[trigger] cells[j], x)
}

/// A polyomino grown from `(sr, sc)`: the start first, distinct cells, and
/// every later cell open and touching an earlier one.
pub open spec fn grown_from(p: Puzzle, sr: int, sc: int, cells: Seq<[usize; 2]>) -> bool {
    &&& cells.len() >= 1
    &&& cells[0] == [sr as usize, sc as usize]
    &&& cells.no_duplicates()
    &&& forall|i: int| 1 <= i < cells.len() ==> open_cell(p, #[trigger] cells[i]) && touches_some(p, cells.take(i), cells[i])
}

/// Candidates that may extend `current`: open cells outside it that touch it.
pub open spec fn extends(p: Puzzle, current: Seq<[usize; 2]>, cands: Seq<[usize; 2]>) -> bool {
    forall|k: int|
        0 <= k < cands.len() ==> open_cell(p, #[trigger] cands[k]) && !current.contains(cands[k]) && touches_some(
            p,
            current,
            cands[k],
        )
}

/// From index `from` on, each cell of `q` is open, touches the cell before
/// it and touches none of the cells before that one; no cell repeats.  Such
/// a path is grown one newly touched cell at a time.
pub open spec fn induced_path(p: Puzzle, q: Seq<[usize; 2]>, from: int) -> bool {
    &&& q.no_duplicates()
    &&& forall|j: int|
        #![trigger q[j]]
        from <= j < q.len() ==> open_cell(p, q[j]) && touches(p, q[j - 1], q[j]) && !touches_some(p, q.take(j - 1), q[j])
}

/// Some entry of `results` from index `lo` on lists exactly the cells of `q`
/// in order.
pub open spec fn produced(results: Seq<Vec<[usize; 2]>>, lo: int, q: Seq<[usize; 2]>) -> bool {
    exists|k: int| lo <= k < results.len() && (#[trigger] results[k])@ == q
}

/// Every entry of `results` is a polyomino of `size` cells grown from
/// `(sr, sc)`.
pub open spec fn polys_ok(p: Puzzle, sr: int, sc: int, size: int, results: Seq<Vec<[usize; 2]>>) -> bool {
    forall|i: int| 0 <= i < results.len() ==> (#[trigger] results[i])@.len() == size && grown_from(p, sr, sc, results[i]@)
}

fn remove_cell(v: &mut Vec<[usize; 2]>, x: [usize; 2])
    ensures
        forall|y: [usize; 2]| final(v)@.contains(y) <==> (old(v)@.contains(y) && y != x),
        forall|y: [usize; 2]| #[trigger] final(v)@.contains(y) ==> old(v)@.contains(y),
{
    let mut i: usize = 0;
    while i < v.len()
        invariant
            i <= v@.len(),
            forall|y: [usize; 2]| v@.contains(y) <==> (old(v)@.contains(y) && (y != x || exists|k: int| i <= k < v@.len() && v@[k] == y)),
            forall|y: [usize; 2]| #[trigger] v@.contains(y) ==> old(v)@.contains(y),
            forall|k: int| 0 <= k < i ==> v@[k] != x,
        decreases v@.len() - i,
    {
        if v[i][0] == x[0] && v[i][1] == x[1] {
            proof {
                assert(v@[i as int] =~= x);
            }
            let ghost before = v@;
            v.remove(i);
            proof {
                assert forall|y: [usize; 2]| v@.contains(y) <==> (old(v)@.contains(y) && (y != x || exists|k: int| i <= k < v@.len() && v@[k] == y)) by {
                    if v@.contains(y) {
                        let k = choose|k: int| 0 <= k < v@.len() && v@[k] == y;
                        if k < i {
                            assert(before[k] == y);
                        } else {
                            assert(before[k + 1] == y);
                        }
                        assert(before.contains(y));
                    }
                    if old(v)@.contains(y) && y != x {
                        assert(before.contains(y));
                        let k = choose|k: int| 0 <= k < before.len() && before[k] == y;
                        if k < i {
                            assert(v@[k] == y);
                        } else if k > i {
                            assert(v@[k - 1] == y);
                        }
                    }
                    if old(v)@.contains(y) && y == x && (exists|k: int| i <= k < v@.len() && v@[k] == y) {
                        let k = choose|k: int| i <= k < v@.len() && v@[k] == y;
                        assert(v@.contains(y));
                    }
                }
                assert forall|y: [usize; 2]| #[trigger] v@.contains(y) implies old(v)@.contains(y) by {
                    let k = choose|k: int| 0 <= k < v@.len() && v@[k] == y;
                    if k < i {
                        assert(before[k] == y);
                    } else {
                        assert(before[k + 1] == y);
                    }
                    assert(before.contains(y));
                }
            }
        } else {
            i = i + 1;
        }
    }
}

proof fn lemma_extends_sub(p: Puzzle, current: Seq<[usize; 2]>, a: Seq<[usize; 2]>, b: Seq<[usize; 2]>)
    requires
        extends(p, current, a),
        forall|y: [usize; 2]| #[trigger] b.contains(y) ==> a.contains(y),
    ensures
        extends(p, current, b),
{
    assert forall|k: int| 0 <= k < b.len() implies open_cell(p, #[trigger] b[k]) && !current.contains(b[k]) && touches_some(
        p,
        current,
        b[k],
    ) by {
        assert(b.contains(b[k]));
        let j = choose|j: int| 0 <= j < a.len() && a[j] == b[k];
    }
}

/// Grow `current` one candidate at a time, smallest candidate first,
/// recording every polyomino of exactly `size` cells.  `candidates` is shared
/// with the callers: each level takes the candidates it tries out of it.
#[verifier::spinoff_prover]
#[verifier::rlimit(50)]
fn poly_rec(
    puzzle: &Puzzle,
    current: &mut Vec<[usize; 2]>,
    candidates: &mut Vec<[usize; 2]>,
    size: usize,
    results: &mut Vec<Vec<[usize; 2]>>,
    sr: usize,
    sc: usize,
)
    requires
        puzzle.wf(),
        1 <= old(current)@.len() <= size,
        grown_from(*puzzle, sr as int, sc as int, old(current)@),
        extends(*puzzle, old(current)@, old(candidates)@),
        polys_ok(*puzzle, sr as int, sc as int, size as int, old(results)@),
    ensures
        final(current)@ == old(current)@,
        forall|y: [usize; 2]| #[trigger] final(candidates)@.contains(y) ==> old(candidates)@.contains(y),
        polys_ok(*puzzle, sr as int, sc as int, size as int, final(results)@),
        final(results)@.len() >= old(results)@.len(),
        forall|i: int| 0 <= i < old(results)@.len() ==> (#[trigger] final(results)@[i])@ == old(results)@[i]@,
        old(current)@.len() == size ==> final(results)@.len() == old(results)@.len() + 1
            && final(results)@[old(results)@.len() as int]@ == old(current)@,
        old(current)@.len() + 1 == size ==> final(results)@.len() == old(results)@.len() + old(candidates)@.len()
            && forall|k: int|
            0 <= k < old(candidates)@.len() ==> (#[trigger] final(results)@[old(results)@.len() + k])@ == old(current)@.push(
                old(candidates)@[k],
            ),
        forall|q: Seq<[usize; 2]>|
            q.len() == size && q.take(old(current)@.len() as int) == old(current)@ && induced_path(
                *puzzle,
                q,
                old(current)@.len() + 1int,
            ) && (old(current)@.len() < size ==> old(candidates)@.contains(q[old(current)@.len() as int]))
                ==> #[trigger] produced(final(results)@, old(results)@.len() as int, q),
    decreases size - old(current)@.len(),
{
    if current.len() == size {
        let c = copy_cells(current);
        let ghost r0 = results@;
        results.push(c);
        proof {
            assert forall|q: Seq<[usize; 2]>|
                q.len() == size && q.take(old(current)@.len() as int) == old(current)@ implies #[trigger] produced(
                results@,
                r0.len() as int,
                q,
            ) by {
                assert(q == q.take(size as int));
                assert(results@[r0.len() as int]@ == q);
            }
            assert forall|i: int| 0 <= i < results@.len() implies (#[trigger] results@[i])@.len() == size && grown_from(
                *puzzle,
                sr as int,
                sc as int,
                results@[i]@,
            ) by {
                if i < r0.len() {
                    assert(results@[i] == r0[i]);
                }
            }
        }
        return;
    }
    if candidates.len() == 0 {
        proof {
            assert forall|q: Seq<[usize; 2]>| !old(candidates)@.contains(q[old(current)@.len() as int]) by {}
        }
        return;
    }
    let h = puzzle.height;
    let w = puzzle.width;
    let mut mine = copy_cells(candidates);
    let ghost cur0 = current@;
    let ghost cand0 = candidates@;
    let ghost r0 = results@;
    let ghost mut done: int = 0;
    while mine.len() > 0
        invariant
            r0 == old(results)@,
            cand0 == old(candidates)@,
            0 <= done <= cand0.len(),
            mine@ == cand0.subrange(done, cand0.len() as int),
            results@.len() >= r0.len(),
            forall|i: int| 0 <= i < r0.len() ==> (#[trigger] results@[i])@ == r0[i]@,
            cur0.len() + 1 == size ==> results@.len() == r0.len() + done && forall|k: int|
                0 <= k < done ==> (#[trigger] results@[r0.len() + k])@ == cur0.push(cand0[k]),
            puzzle.wf(),
            h == puzzle.height,
            w == puzzle.width,
            1 <= cur0.len() < size,
            cur0 == old(current)@,
            current@ == cur0,
            grown_from(*puzzle, sr as int, sc as int, cur0),
            extends(*puzzle, cur0, mine@),
            extends(*puzzle, cur0, candidates@),
            forall|y: [usize; 2]| #[trigger] candidates@.contains(y) ==> cand0.contains(y),
            polys_ok(*puzzle, sr as int, sc as int, size as int, results@),
            forall|q: Seq<[usize; 2]>|
                q.len() == size && q.take(cur0.len() as int) == cur0 && induced_path(*puzzle, q, cur0.len() + 1int)
                    && cand0.take(done).contains(q[cur0.len() as int]) ==> #[trigger] produced(results@, r0.len() as int, q),
        decreases mine@.len(),
    {
        let next = mine[0];
        proof {
            assert(open_cell(*puzzle, mine@[0]) && !cur0.contains(next) && touches_some(*puzzle, cur0, next));
        }
        let ghost m0 = mine@;
        mine.remove(0);
        proof {
            assert forall|y: [usize; 2]| #[trigger] mine@.contains(y) implies m0.contains(y) by {
                let k = choose|k: int| 0 <= k < mine@.len() && mine@[k] == y;
                assert(m0[k + 1] == y);
            }
            lemma_extends_sub(*puzzle, cur0, m0, mine@);
        }
        let ghost pre_iter = candidates@;
        remove_cell(candidates, next);
        proof {
            lemma_extends_sub(*puzzle, cur0, pre_iter, candidates@);
        }
        let ghost c1 = candidates@;
        proof {
            let cn = cur0.push(next);
            assert forall|k: int| 0 <= k < c1.len() implies open_cell(*puzzle, #[trigger] c1[k]) && !cn.contains(c1[k])
                && touches_some(*puzzle, cn, c1[k]) by {
                let y = c1[k];
                assert(c1.contains(y));
                assert(y != next);
                assert(touches_some(*puzzle, cur0, y));
                let j = choose|j: int| 0 <= j < cur0.len() && touches(*puzzle, #[trigger] cur0[j], y);
                assert(cn[j] == cur0[j]);
                if cn.contains(y) {
                    let q = choose|q: int| 0 <= q < cn.len() && cn[q] == y;
                    if q < cur0.len() {
                        assert(cur0[q] == y);
                        assert(cur0.contains(y));
                    }
                }
            }
        }
        let mut added: Vec<[usize; 2]> = Vec::new();
        let nbrs = neighbor_positions(next[0], next[1], h, w);
        let mut t: usize = 0;
        while t < nbrs.len()
            invariant
                puzzle.wf(),
                h == puzzle.height,
                w == puzzle.width,
                next[0] < h && next[1] < w,
                !cur0.contains(next),
                current@ == cur0,
                open_cell(*puzzle, next),
                t <= nbrs@.len(),
                forall|i: int|
                    0 <= i < nbrs@.len() ==> {
                        let (nr, nc) = #[trigger] nbrs@[i];
                        &&& nr < h && nc < w
                        &&& (nr == next[0] && (nc + 1 == next[1] || next[1] + 1 == nc)) || (nc == next[1] && (nr + 1
                            == next[0] || next[0] + 1 == nr))
                    },
                extends(*puzzle, cur0.push(next), candidates@),
                forall|y: [usize; 2]| #[trigger] candidates@.contains(y) ==> c1.contains(y) || added@.contains(y),
                forall|y: [usize; 2]| #[trigger] added@.contains(y) ==> !c1.contains(y),
                forall|y: [usize; 2]| #[trigger] c1.contains(y) ==> candidates@.contains(y),
                forall|i: int|
                    #![trigger nbrs@[i]]
                    0 <= i < t ==> {
                        let pos = [nbrs@[i].0, nbrs@[i].1];
                        open_cell(*puzzle, pos) && !spec_is_precut(*puzzle, next[0] as int, next[1] as int, pos[0] as int, pos[1] as int)
                            && !cur0.contains(pos) && !mine@.contains(pos) ==> candidates@.contains(pos)
                    },
            decreases nbrs@.len() - t,
        {
            let (nr, nc) = nbrs[t];
            let pos = [nr, nc];
            if !puzzle.cells[nr][nc].blocked {
                if !is_precut(puzzle, next[0], next[1], nr, nc) {
                    if !contains_cell(current, pos) && !contains_cell(&mine, pos) {
                        if !contains_cell(candidates, pos) {
                            let ghost cb = candidates@;
                            let ghost ab = added@;
                            frontier_insert(candidates, pos);
                            added.push(pos);
                            proof {
                                let cn = cur0.push(next);
                                assert(cn[cn.len() - 1] == next);
                                assert(touches(*puzzle, next, pos));
                                assert(touches_some(*puzzle, cn, pos));
                                assert(pos != next) by {
                                    assert(pos[0] != next[0] || pos[1] != next[1]);
                                }
                                assert forall|y: [usize; 2]| cn.contains(y) implies cur0.contains(y) || y == next by {
                                    let k = choose|k: int| 0 <= k < cn.len() && cn[k] == y;
                                    if k < cur0.len() {
                                        assert(cur0[k] == y);
                                    }
                                }
                                assert forall|k: int| 0 <= k < candidates@.len() implies open_cell(
                                    *puzzle,
                                    #[trigger] candidates@[k],
                                ) && !cn.contains(candidates@[k]) && touches_some(*puzzle, cn, candidates@[k]) by {
                                    let y = candidates@[k];
                                    if y != pos {
                                        assert(cb.contains(y));
                                        let q = choose|q: int| 0 <= q < cb.len() && cb[q] == y;
                                        assert(open_cell(*puzzle, cb[q]));
                                    }
                                }
                                assert forall|y: [usize; 2]| #[trigger] candidates@.contains(y) implies c1.contains(y)
                                    || added@.contains(y) by {
                                    if y == pos {
                                        assert(added@[added@.len() - 1] == pos);
                                    } else {
                                        assert(cb.contains(y));
                                        if ab.contains(y) {
                                            let q = choose|q: int| 0 <= q < ab.len() && ab[q] == y;
                                            assert(added@[q] == y);
                                        }
                                    }
                                }
                                assert forall|y: [usize; 2]| #[trigger] added@.contains(y) implies !c1.contains(y) by {
                                    let q = choose|q: int| 0 <= q < added@.len() && added@[q] == y;
                                    if q < ab.len() {
                                        assert(ab[q] == y);
                                        assert(ab.contains(y));
                                    } else {
                                        assert(y == pos);
                                        if c1.contains(pos) {
                                            assert(cb.contains(pos));
                                        }
                                    }
                                }
                            }
                        }
                    }
                }
            }
            proof {
                assert forall|i: int|
                    #![trigger nbrs@[i]]
                    0 <= i < t + 1 implies {
                        let pos = [nbrs@[i].0, nbrs@[i].1];
                        open_cell(*puzzle, pos) && !spec_is_precut(*puzzle, next[0] as int, next[1] as int, pos[0] as int, pos[1] as int)
                            && !cur0.contains(pos) && !mine@.contains(pos) ==> candidates@.contains(pos)
                    } by {
                    if i == t {
                        assert(nbrs@[i] == (nr, nc));
                    }
                }
            }
            t = t + 1;
        }
        let ghost c2 = candidates@;
        proof {
            let cn = cur0.push(next);
            assert(cn.take(cur0.len() as int) == cur0);
            assert forall|i: int| 1 <= i < cn.len() implies open_cell(*puzzle, #[trigger] cn[i]) && touches_some(
                *puzzle,
                cn.take(i),
                cn[i],
            ) by {
                if i < cur0.len() {
                    assert(cn.take(i) == cur0.take(i));
                    assert(cn[i] == cur0[i]);
                }
            }
            assert(cn.no_duplicates()) by {
                assert forall|a: int, b: int| 0 <= a < b < cn.len() implies cn[a] != cn[b] by {
                    if b == cur0.len() {
                        assert(cur0.contains(cur0[a]));
                    }
                }
            }
            assert(cn[0] == cur0[0]);
        }
        let ghost rb = results@;
        let ghost m = cur0.len() as int;
        proof {
            assert forall|q: Seq<[usize; 2]>|
                q.len() == size && q.take(m) == cur0 && induced_path(*puzzle, q, m + 1) && q[m] == next && m + 1 < size
                implies #[trigger] c2.contains(q[m + 1]) by {
                let y = q[m + 1];
                assert(q[m] == next);
                assert(open_cell(*puzzle, y) && touches(*puzzle, next, y) && !touches_some(*puzzle, q.take(m), y));
                assert(nbrs@.contains((y[0], y[1])));
                let i = choose|i: int| 0 <= i < nbrs@.len() && nbrs@[i] == (y[0], y[1]);
                assert([nbrs@[i].0, nbrs@[i].1] =~= y);
                assert(!cur0.contains(y)) by {
                    if cur0.contains(y) {
                        let a = choose|a: int| 0 <= a < cur0.len() && cur0[a] == y;
                        assert(q[a] == cur0[a]);
                    }
                }
                assert(!mine@.contains(y)) by {
                    if mine@.contains(y) {
                        let a = choose|a: int| 0 <= a < mine@.len() && mine@[a] == y;
                        assert(touches_some(*puzzle, cur0, mine@[a]));
                    }
                }
            }
        }
        current.push(next);
        poly_rec(puzzle, current, candidates, size, results, sr, sc);
        current.pop();
        proof {
            assert(next == cand0[done]);
            let cn = cur0.push(next);
            assert forall|q: Seq<[usize; 2]>|
                q.len() == size && q.take(m) == cur0 && induced_path(*puzzle, q, m + 1) && cand0.take(done + 1).contains(q[m])
                implies #[trigger] produced(results@, r0.len() as int, q) by {
                if q[m] == next {
                    assert(q.take(m + 1) == cn);
                    if m + 1 < size {
                        assert(c2.contains(q[m + 1]));
                    }
                    assert(induced_path(*puzzle, q, m + 2));
                    assert(produced(results@, rb.len() as int, q));
                } else {
                    let a = choose|a: int| 0 <= a < done + 1 && #[trigger] cand0.take(done + 1)[a] == q[m];
                    assert(a < done);
                    assert(cand0.take(done)[a] == q[m]);
                    assert(produced(rb, r0.len() as int, q));
                    let k = choose|k: int| r0.len() <= k < rb.len() && (#[trigger] rb[k])@ == q;
                    assert(results@[k]@ == rb[k]@);
                }
            }
            if cur0.len() + 1 == size {
                assert forall|k: int| 0 <= k < done + 1 implies (#[trigger] results@[r0.len() + k])@ == cur0.push(cand0[k]) by {
                    if k < done {
                        assert(results@[r0.len() + k]@ == rb[r0.len() + k]@);
                    }
                }
            }
            assert forall|i: int| 0 <= i < r0.len() implies (#[trigger] results@[i])@ == r0[i]@ by {
                assert(results@[i]@ == rb[i]@);
            }
            done = done + 1;
            assert(mine@ == cand0.subrange(done, cand0.len() as int));
        }
        proof {
            assert(current@ =~= cur0);
        }
        let ghost c3 = candidates@;
        let mut q: usize = 0;
        while q < added.len()
            invariant
                q <= added@.len(),
                forall|y: [usize; 2]| #[trigger] candidates@.contains(y) ==> c3.contains(y),
                forall|y: [usize; 2]| #[trigger] candidates@.contains(y) ==> !added@.take(q as int).contains(y),
            decreases added@.len() - q,
        {
            let a = added[q];
            let ghost cb = candidates@;
            remove_cell(candidates, a);
            proof {
                assert forall|y: [usize; 2]| #[trigger] candidates@.contains(y) implies !added@.take(q + 1).contains(y) by {
                    if added@.take(q + 1).contains(y) {
                        let k = choose|k: int| 0 <= k < q + 1 && #[trigger] added@.take(q + 1)[k] == y;
                        if k < q {
                            assert(added@.take(q as int)[k] == y);
                            assert(added@.take(q as int).contains(y));
                        }
                    }
                }
            }
            q = q + 1;
        }
        proof {
            assert(added@.take(q as int) == added@);
            assert forall|y: [usize; 2]| #[trigger] candidates@.contains(y) implies cand0.contains(y) && c1.contains(y) by {
                assert(c3.contains(y));
                assert(c2.contains(y));
                assert(c1.contains(y) || added@.contains(y));
                assert(pre_iter.contains(y));
            }
            lemma_extends_sub(*puzzle, cur0, c1, candidates@);
        }
    }
    proof {
        assert(done == cand0.len());
        assert(cand0.take(done) == cand0);
    }
}

/// Connected polyominoes of exactly `size` cells grown from `(sr, sc)`
/// through open cells without crossing a pre-drawn boundary, as a search
/// finds them that tries the smallest candidate cell first and shares its
/// candidate set across levels (so a shape reachable only through a cell a
/// sibling branch already tried is not produced); none for size 0.  Every
/// path of `size` cells from `(sr, sc)` in which each cell is open and
/// touches the one before it but none earlier (a straight line, for one) is
/// produced, in that order.
pub fn generate_polyominoes(puzzle: &Puzzle, sr: usize, sc: usize, size: usize, results: &mut Vec<Vec<[usize; 2]>>)
    requires
        puzzle.wf(),
        sr < puzzle.height,
        sc < puzzle.width,
        polys_ok(*puzzle, sr as int, sc as int, size as int, old(results)@),
    ensures
        polys_ok(*puzzle, sr as int, sc as int, size as int, final(results)@),
        size == 0 ==> final(results)@ == old(results)@,
        final(results)@.len() >= old(results)@.len(),
        forall|i: int| 0 <= i < old(results)@.len() ==> (#[trigger] final(results)@[i])@ == old(results)@[i]@,
        size == 1 ==> final(results)@.len() == old(results)@.len() + 1
            && final(results)@[old(results)@.len() as int]@ == seq![[sr, sc]],
        forall|q: Seq<[usize; 2]>|
            q.len() == size && size >= 1 && q[0] == [sr, sc] && induced_path(*puzzle, q, 1)
                ==> #[trigger] produced(final(results)@, old(results)@.len() as int, q),
{
    if size == 0 {
        return;
    }
    let mut current: Vec<[usize; 2]> = Vec::new();
    current.push([sr, sc]);
    let mut candidates: Vec<[usize; 2]> = Vec::new();
    let nbrs = neighbor_positions(sr, sc, puzzle.height, puzzle.width);
    let mut t: usize = 0;
    while t < nbrs.len()
        invariant
            puzzle.wf(),
            sr < puzzle.height,
            sc < puzzle.width,
            current@ == seq![[sr, sc]],
            t <= nbrs@.len(),
            forall|i: int|
                0 <= i < nbrs@.len() ==> {
                    let (nr, nc) = #[trigger] nbrs@[i];
                    &&& nr < puzzle.height && nc < puzzle.width
                    &&& (nr == sr && (nc + 1 == sc || sc + 1 == nc)) || (nc == sc && (nr + 1 == sr || sr + 1 == nr))
                },
            extends(*puzzle, current@, candidates@),
            forall|i: int|
                #![trigger nbrs@[i]]
                0 <= i < t ==> {
                    let pos = [nbrs@[i].0, nbrs@[i].1];
                    open_cell(*puzzle, pos) && !spec_is_precut(*puzzle, sr as int, sc as int, pos[0] as int, pos[1] as int)
                        ==> candidates@.contains(pos)
                },
        decreases nbrs@.len() - t,
    {
        let (nr, nc) = nbrs[t];
        let ghost c_before = candidates@;
        if !puzzle.cells[nr][nc].blocked && !is_precut(puzzle, sr, sc, nr, nc) {
            let ghost cb = candidates@;
            frontier_insert(&mut candidates, [nr, nc]);
            proof {
                let pos = [nr, nc];
                assert(touches(*puzzle, current@[0], pos));
                assert(touches_some(*puzzle, current@, pos));
                assert(!current@.contains(pos)) by {
                    if current@.contains(pos) {
                        assert(current@[0] == pos);
                    }
                }
                assert forall|k: int| 0 <= k < candidates@.len() implies open_cell(
                    *puzzle,
                    #[trigger] candidates@[k],
                ) && !current@.contains(candidates@[k]) && touches_some(*puzzle, current@, candidates@[k]) by {
                    let y = candidates@[k];
                    if y != pos {
                        assert(cb.contains(y));
                        let q = choose|q: int| 0 <= q < cb.len() && cb[q] == y;
                        assert(open_cell(*puzzle, cb[q]));
                    }
                }
            }
        }
        proof {
            assert forall|i: int|
                #![trigger nbrs@[i]]
                0 <= i < t + 1 implies {
                    let pos = [nbrs@[i].0, nbrs@[i].1];
                    open_cell(*puzzle, pos) && !spec_is_precut(*puzzle, sr as int, sc as int, pos[0] as int, pos[1] as int)
                        ==> candidates@.contains(pos)
                } by {
                if i == t {
                    assert(nbrs@[i] == (nr, nc));
                } else {
                    let pos = [nbrs@[i].0, nbrs@[i].1];
                    if c_before.contains(pos) {
                        assert(candidates@.contains(pos));
                    }
                }
            }
        }
        t = t + 1;
    }
    proof {
        assert(grown_from(*puzzle, sr as int, sc as int, current@)) by {
            assert(current@.no_duplicates());
        }
        assert forall|q: Seq<[usize; 2]>|
            q.len() == size && size >= 2 && q[0] == [sr, sc] && induced_path(*puzzle, q, 1) implies #[trigger] candidates@.contains(q[1]) by {
            let y = q[1];
            assert(open_cell(*puzzle, y) && touches(*puzzle, q[0], y));
            assert(nbrs@.contains((y[0], y[1])));
            let i = choose|i: int| 0 <= i < nbrs@.len() && nbrs@[i] == (y[0], y[1]);
            assert([nbrs@[i].0, nbrs@[i].1] =~= y);
        }
        assert forall|q: Seq<[usize; 2]>| q.len() == size && size >= 1 && q[0] == [sr, sc] implies #[trigger] q.take(1) == current@ by {
            assert(q.take(1) =~= current@);
        }
    }
    poly_rec(puzzle, &mut current, &mut candidates, size, results, sr, sc);
    proof {
        assert forall|q: Seq<[usize; 2]>|
            q.len() == size && size >= 1 && q[0] == [sr, sc] && induced_path(*puzzle, q, 1) implies #[trigger] produced(
            results@,
            old(results)@.len() as int,
            q,
        ) by {
            assert(q.take(1) == seq![[sr, sc]]);
            assert(induced_path(*puzzle, q, 2));
        }
    }
}

/// Grow the region `current` (with half-plane `counts`) by one frontier cell
/// at a time, recording every set whose constrained counts are met exactly.
/// Each cell set is expanded once (`visited`); the search stops at the
/// deadline or at the placement and state caps.
fn compass_rec(
    puzzle: &Puzzle,
    current: &Vec<[usize; 2]>,
    counts: [usize; 4],
    frontier: &Vec<[usize; 2]>,
    sr: usize,
    sc: usize,
    compass: &CompassClue,
    results: &mut Vec<Vec<[usize; 2]>>,
    visited: &mut Vec<Vec<[usize; 2]>>,
    deadline: &Instant,
)
    requires
        puzzle.wf(),
        sr < puzzle.height,
        sc < puzzle.width,
        growing_region(*puzzle, sr as int, sc as int, current@),
        forall|k: int| 0 <= k < 4 ==> #[trigger] counts[k] == half_plane_count(current@, sr as int, sc as int, k),
        frontier_ok(*puzzle, current@, frontier@),
        current@.len() <= old(visited)@.len(),
        forall|i: int|
            0 <= i < old(results)@.len() ==> compass_region_ok(
                *puzzle,
                sr as int,
                sc as int,
                *compass,
                #[trigger] old(results)@[i]@,
            ),
    ensures
        forall|i: int|
            0 <= i < final(results)@.len() ==> compass_region_ok(
                *puzzle,
                sr as int,
                sc as int,
                *compass,
                #[trigger] final(results)@[i]@,
            ),
        final(visited)@.len() >= old(visited)@.len(),
    decreases MAX_COMPASS_ENUM_STATES - old(visited)@.len(),
{
    if deadline_reached(deadline) || results.len() >= MAX_COMPASS_PLACEMENTS {
        return;
    }
    if visited.len() >= MAX_COMPASS_ENUM_STATES {
        return;
    }
    let ghost visited_entry = visited@.len();
    proof {
        lemma_half_plane_bound(current@, sr as int, sc as int, 0);
        lemma_half_plane_bound(current@, sr as int, sc as int, 1);
        lemma_half_plane_bound(current@, sr as int, sc as int, 2);
        lemma_half_plane_bound(current@, sr as int, sc as int, 3);
    }
    let all_satisfied = meets(compass.up, counts[0]) && meets(compass.down, counts[1]) && meets(
        compass.right,
        counts[2],
    ) && meets(compass.left, counts[3]);
    if all_satisfied {
        let snapshot = copy_cells(current);
        proof {
            assert forall|k: int| 0 <= k < 4 implies match #[trigger] compass_limit(*compass, k) {
                Some(v) => half_plane_count(current@, sr as int, sc as int, k) as i64 == v,
                None => true,
            } by {
                assert(counts[k] == half_plane_count(current@, sr as int, sc as int, k));
            }
        }
        results.push(snapshot);
    }
    let h = puzzle.height;
    let w = puzzle.width;
    let mut idx: usize = 0;
    while idx < frontier.len()
        invariant
            puzzle.wf(),
            h == puzzle.height,
            w == puzzle.width,
            sr < h,
            sc < w,
            growing_region(*puzzle, sr as int, sc as int, current@),
            forall|k: int| 0 <= k < 4 ==> #[trigger] counts[k] == half_plane_count(current@, sr as int, sc as int, k),
            forall|k: int| 0 <= k < 4 ==> #[trigger] counts[k] <= current@.len(),
            frontier_ok(*puzzle, current@, frontier@),
            current@.len() <= visited_entry < MAX_COMPASS_ENUM_STATES,
            visited_entry == old(visited)@.len(),
            visited@.len() >= visited_entry,
            idx <= frontier@.len(),
            forall|i: int|
                0 <= i < results@.len() ==> compass_region_ok(
                    *puzzle,
                    sr as int,
                    sc as int,
                    *compass,
                    #[trigger] results@[i]@,
                ),
        decreases frontier@.len() - idx,
    {
        let next = frontier[idx];
        idx = idx + 1;
        let north = next[0] < sr;
        let south = next[0] > sr;
        let east = next[1] > sc;
        let west = next[1] < sc;
        let at_limit = (north && over(compass.up, counts[0])) || (south && over(compass.down, counts[1]))
            || (east && over(compass.right, counts[2])) || (west && over(compass.left, counts[3]));
        if at_limit {
            continue;
        }
        let mut new_counts = counts;
        if north {
            new_counts[0] = new_counts[0] + 1;
        }
        if south {
            new_counts[1] = new_counts[1] + 1;
        }
        if east {
            new_counts[2] = new_counts[2] + 1;
        }
        if west {
            new_counts[3] = new_counts[3] + 1;
        }
        let mut new_current = copy_cells(current);
        new_current.push(next);
        proof {
            assert(new_current@ == current@.push(next));
            assert forall|k: int| 0 <= k < 4 implies #[trigger] new_counts[k] == half_plane_count(new_current@, sr as int, sc as int, k) by {
                lemma_half_plane_push(current@, next, sr as int, sc as int, k);
            }
            assert(!current@.contains(next));
            assert forall|i: int, j: int| 0 <= i < j < new_current@.len() implies new_current@[i] != new_current@[j] by {
                if j == new_current@.len() - 1 {
                    assert(current@[i] == new_current@[i]);
                }
            }
            let seed = [sr, sc];
            let si = choose|i: int| 0 <= i < current@.len() && current@[i] == seed;
            assert(new_current@[si] == seed);
            assert forall|i: int| 0 <= i < new_current@.len() implies (#[trigger] new_current@[i])[0] < puzzle.height && new_current@[i][1] < puzzle.width
                && !puzzle.cell(new_current@[i][0] as int, new_current@[i][1] as int).blocked by {
                if i < current@.len() {
                    assert(new_current@[i] == current@[i]);
                }
            }
        }
        if seen_before(visited, &new_current) {
            continue;
        }
        let stored = copy_cells(&new_current);
        visited.push(stored);
        let mut new_frontier: Vec<[usize; 2]> = Vec::new();
        let mut j: usize = 0;
        while j < frontier.len()
            invariant
                j <= frontier@.len(),
                frontier_ok(*puzzle, current@, frontier@),
                new_current@ == current@.push(next),
                frontier_ok(*puzzle, new_current@, new_frontier@),
            decreases frontier@.len() - j,
        {
            let f = frontier[j];
            if !(f[0] == next[0] && f[1] == next[1]) {
                proof {
                    assert(f != next);
                    if new_current@.contains(f) {
                        let q = choose|q: int| 0 <= q < new_current@.len() && new_current@[q] == f;
                        if q < current@.len() {
                            assert(current@[q] == f);
                        }
                    }
                }
                new_frontier.push(f);
                proof {
                    assert forall|i: int| 0 <= i < new_frontier@.len() implies (#[trigger] new_frontier@[i])[0] < puzzle.height && new_frontier@[i][1] < puzzle.width
                        && !puzzle.cell(new_frontier@[i][0] as int, new_frontier@[i][1] as int).blocked && !new_current@.contains(new_frontier@[i]) by {
                        if i == new_frontier@.len() - 1 {
                            assert(new_frontier@[i] == f);
                        }
                    }
                }
            }
            j = j + 1;
        }
        let nbrs = neighbor_positions(next[0], next[1], h, w);
        let mut t: usize = 0;
        while t < nbrs.len()
            invariant
                puzzle.wf(),
                h == puzzle.height,
                w == puzzle.width,
                next[0] < h,
                next[1] < w,
                t <= nbrs@.len(),
                forall|i: int|
                    0 <= i < nbrs@.len() ==> {
                        let (nr, nc) = #[trigger] nbrs@[i];
                        &&& nr < h && nc < w
                        &&& (nr == next[0] && (nc + 1 == next[1] || next[1] + 1 == nc)) || (nc == next[1] && (nr + 1 == next[0] || next[0] + 1 == nr))
                    },
                frontier_ok(*puzzle, new_current@, new_frontier@),
            decreases nbrs@.len() - t,
        {
            let (nr, nc) = nbrs[t];
            t = t + 1;
            let pos = [nr, nc];
            if puzzle.cells[nr][nc].blocked {
                continue;
            }
            if is_precut(puzzle, next[0], next[1], nr, nc) {
                continue;
            }
            if (nr == next[0] && nc == next[1]) || contains_cell(&new_current, pos) {
                continue;
            }
            let ghost nf0 = new_frontier@;
            frontier_insert(&mut new_frontier, pos);
            proof {
                assert forall|i: int| 0 <= i < new_frontier@.len() implies (#[trigger] new_frontier@[i])[0] < puzzle.height && new_frontier@[i][1] < puzzle.width
                    && !puzzle.cell(new_frontier@[i][0] as int, new_frontier@[i][1] as int).blocked && !new_current@.contains(new_frontier@[i]) by {
                    if new_frontier@[i] != pos {
                        let q = choose|q: int| 0 <= q < nf0.len() && nf0[q] == new_frontier@[i];
                        assert(nf0[q] == new_frontier@[i]);
                    }
                }
            }
        }
        if visited.len() >= MAX_COMPASS_ENUM_STATES {
            continue;
        }
        assert(visited@.len() > old(visited)@.len());
        compass_rec(
            puzzle,
            &new_current,
            new_counts,
            &new_frontier,
            sr,
            sc,
            compass,
            results,
            visited,
            deadline,
        );
        if results.len() >= MAX_COMPASS_PLACEMENTS {
            return;
        }
    }
}

/// Regions the compass clue at `(sr, sc)` allows, grown from the clue cell
/// across edges that are not pre-drawn.  Every region returned meets the
/// clue (see `compass_region_ok`); the enumeration stops early at the
/// deadline or at the placement and state caps.
pub fn generate_compass_polyominoes(
    puzzle: &Puzzle,
    sr: usize,
    sc: usize,
    compass: &CompassClue,
    deadline: Instant,
) -> (results: Vec<Vec<[usize; 2]>>)
    requires
        puzzle.wf(),
        sr < puzzle.height,
        sc < puzzle.width,
        !puzzle.cell(sr as int, sc as int).blocked,
    ensures
        forall|i: int|
            0 <= i < results@.len() ==> compass_region_ok(
                *puzzle,
                sr as int,
                sc as int,
                *compass,
                #[trigger] results@[i]@,
            ),
{
    let mut results: Vec<Vec<[usize; 2]>> = Vec::new();
    let mut current: Vec<[usize; 2]> = Vec::new();
    current.push([sr, sc]);
    let counts: [usize; 4] = [0, 0, 0, 0];
    let mut frontier: Vec<[usize; 2]> = Vec::new();
    let nbrs = neighbor_positions(sr, sc, puzzle.height, puzzle.width);
    let mut t: usize = 0;
    while t < nbrs.len()
        invariant
            puzzle.wf(),
            sr < puzzle.height,
            sc < puzzle.width,
            current@ == seq![[sr, sc]],
            t <= nbrs@.len(),
            forall|i: int|
                0 <= i < nbrs@.len() ==> {
                    let (nr, nc) = #[trigger] nbrs@[i];
                    &&& nr < puzzle.height && nc < puzzle.width
                    &&& (nr == sr && (nc + 1 == sc || sc + 1 == nc)) || (nc == sc && (nr + 1 == sr || sr + 1 == nr))
                },
            frontier_ok(*puzzle, current@, frontier@),
        decreases nbrs@.len() - t,
    {
        let (nr, nc) = nbrs[t];
        t = t + 1;
        if !puzzle.cells[nr][nc].blocked && !is_precut(puzzle, sr, sc, nr, nc) {
            let ghost f0 = frontier@;
            frontier_insert(&mut frontier, [nr, nc]);
            proof {
                assert(!current@.contains([nr, nc])) by {
                    if current@.contains([nr, nc]) {
                        assert(current@[0] == [nr, nc]);
                    }
                }
                assert forall|i: int| 0 <= i < frontier@.len() implies (#[trigger] frontier@[i])[0] < puzzle.height && frontier@[i][1] < puzzle.width
                    && !puzzle.cell(frontier@[i][0] as int, frontier@[i][1] as int).blocked && !current@.contains(frontier@[i]) by {
                    if frontier@[i] != [nr, nc] {
                        let q = choose|q: int| 0 <= q < f0.len() && f0[q] == frontier@[i];
                        assert(f0[q] == frontier@[i]);
                    }
                }
            }
        }
    }
    let mut visited: Vec<Vec<[usize; 2]>> = Vec::new();
    let first = copy_cells(&current);
    visited.push(first);
    proof {
        assert(current@[0] == [sr, sc]);
        assert forall|k: int| 0 <= k < 4 implies #[trigger] counts[k] == half_plane_count(current@, sr as int, sc as int, k) by {
            assert(current@.drop_last() =~= Seq::<[usize; 2]>::empty());
            assert(current@.last() == [sr, sc]);
            assert(!in_half_plane([sr, sc], sr as int, sc as int, k));
            assert(half_plane_count(current@, sr as int, sc as int, k) == half_plane_count(current@.drop_last(), sr as int, sc as int, k));
        }
    }
    compass_rec(
        puzzle,
        &current,
        counts,
        &frontier,
        sr,
        sc,
        compass,
        &mut results,
        &mut visited,
        &deadline,
    );
    results
}

} // verus!
