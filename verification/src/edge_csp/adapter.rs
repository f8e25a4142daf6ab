//! Adapter: `Puzzle` → edge_csp solver input.
//!
//! Maps the rule/clue model onto the edge-variable representation:
//! - `ring`/`brick`/`differentiation`/`block`/`non_block` → `GlobalRules` flags
//! - area numbers / compass clues / fence patterns → `CellClue`
//! - `inequality`/`difference` edge constraints → `EdgeClue`
//! - `watchtower` vertex clues → `VertexClue`
//! - `is_boundary` edges → pre-cut (`Cut`) edges

use vstd::prelude::*;
use crate::edge_csp::grid::Grid;
use crate::edge_csp::types::{CellClue, CompassData, EdgeClue, EdgeClueKind, EdgeId, GlobalRules, PalisadeKind, VertexClue};
use crate::types::{Cell, Edge, EdgeConstraintType, Puzzle, RuleType};

verus! {

/// Everything the edge_csp solver needs, pre-digested from a `Puzzle`.
pub struct Input {
    pub grid: Grid,
    pub cell_clues: Vec<CellClue>,
    pub edge_clues: Vec<EdgeClue>,
    pub vertex_clues: Vec<VertexClue>,
    pub rules: GlobalRules,
    pub pre_cut: Vec<EdgeId>,
    /// Global area lower bound from `precise`/`range` only.
    pub min_area: usize,
    /// Global area upper bound.
    pub max_area: usize,
}

pub open spec fn fp_has(fp: Seq<[usize; 2]>, a: usize, b: usize) -> bool {
    exists|i: int| 0 <= i < fp.len() && (#[trigger] fp[i])[0] == a && fp[i][1] == b
}

/// The dihedral class of a fence cross from its four side markers.
pub open spec fn spec_palisade_kind(fp: Seq<[usize; 2]>) -> Option<PalisadeKind> {
    let up = fp_has(fp, 0, 1);
    let down = fp_has(fp, 2, 1);
    let left = fp_has(fp, 1, 0);
    let right = fp_has(fp, 1, 2);
    let cuts = (if up { 1int } else { 0int }) + (if down { 1int } else { 0int }) + (if left {
        1int
    } else {
        0int
    }) + (if right { 1int } else { 0int });
    if cuts == 0 {
        Some(PalisadeKind::Empty)
    } else if cuts == 1 {
        Some(PalisadeKind::One)
    } else if cuts == 4 {
        Some(PalisadeKind::All)
    } else if cuts == 3 {
        Some(PalisadeKind::Three)
    } else if (up && down) || (left && right) {
        Some(PalisadeKind::Opposite)
    } else {
        Some(PalisadeKind::Adjacent)
    }
}

fn fp_contains(fp: &[[usize; 2]], a: usize, b: usize) -> (r: bool)
    ensures
        r == fp_has(fp@, a, b),
{
    let mut i: usize = 0;
    while i < fp.len()
        invariant
            i <= fp@.len(),
            forall|k: int| 0 <= k < i ==> !((#[trigger] fp@[k])[0] == a && fp@[k][1] == b),
        decreases fp@.len() - i,
    {
        if fp[i][0] == a && fp[i][1] == b {
            return true;
        }
        i = i + 1;
    }
    false
}

/// Map a `fence_pattern` (a 3x3 cross: centre `[1,1]` + cut-edge markers
/// `[0,1]`=up / `[2,1]`=down / `[1,0]`=left / `[1,2]`=right) to a
/// `PalisadeKind`.
pub fn palisade_kind(fp: &[[usize; 2]]) -> (k: Option<PalisadeKind>)
    ensures
        k == spec_palisade_kind(fp@),
{
    let up = fp_contains(fp, 0, 1);
    let down = fp_contains(fp, 2, 1);
    let left = fp_contains(fp, 1, 0);
    let right = fp_contains(fp, 1, 2);
    let mut cuts: usize = 0;
    if up {
        cuts = cuts + 1;
    }
    if down {
        cuts = cuts + 1;
    }
    if left {
        cuts = cuts + 1;
    }
    if right {
        cuts = cuts + 1;
    }
    match cuts {
        0 => Some(PalisadeKind::Empty),
        1 => Some(PalisadeKind::One),
        4 => Some(PalisadeKind::All),
        3 => Some(PalisadeKind::Three),
        2 => {
            if (up && down) || (left && right) {
                Some(PalisadeKind::Opposite)
            } else {
                Some(PalisadeKind::Adjacent)
            }
        },
        _ => None,
    }
}

/// The cell clues contributed by one fillable cell, in the order area
/// number, compass, fence.
pub open spec fn cell_clues_of(cell: Cell, cid: usize) -> Seq<CellClue> {
    if cell.blocked {
        Seq::empty()
    } else {
        let a = match cell.number {
            Some(n) => seq![CellClue::Area { cell: cid, value: n as usize }],
            None => Seq::empty(),
        };
        let b = match cell.compass {
            Some(comp) => seq![
                CellClue::Compass {
                    cell: cid,
                    compass: CompassData {
                        n: match comp.up {
                            Some(v) => Some(v as usize),
                            None => None,
                        },
                        s: match comp.down {
                            Some(v) => Some(v as usize),
                            None => None,
                        },
                        e: match comp.right {
                            Some(v) => Some(v as usize),
                            None => None,
                        },
                        w: match comp.left {
                            Some(v) => Some(v as usize),
                            None => None,
                        },
                    },
                },
            ],
            None => Seq::empty(),
        };
        let f = match cell.fence_pattern {
            Some(fp) => match spec_palisade_kind(fp@) {
                Some(kind) => seq![CellClue::Palisade { cell: cid, kind }],
                None => Seq::empty(),
            },
            None => Seq::empty(),
        };
        a + b + f
    }
}

/// Cell clues of the first `c` cells of row `r`.
pub open spec fn row_cell_clues(p: Puzzle, r: int, c: int) -> Seq<CellClue>
    decreases c,
{
    if c <= 0 {
        Seq::empty()
    } else {
        row_cell_clues(p, r, c - 1) + cell_clues_of(p.cell(r, c - 1), (r * p.width + c - 1) as usize)
    }
}

/// Cell clues of the first `r` rows, row-major.
pub open spec fn all_cell_clues(p: Puzzle, r: int) -> Seq<CellClue>
    decreases r,
{
    if r <= 0 {
        Seq::empty()
    } else {
        all_cell_clues(p, r - 1) + row_cell_clues(p, r - 1, p.width as int)
    }
}

/// The clue an edge's constraint contributes, if any.
pub open spec fn edge_clue_of(e: Edge, eid: usize) -> Seq<EdgeClue> {
    match e.constraint {
        Some(ec) => match ec.ctype {
            EdgeConstraintType::Inequality => seq![
                EdgeClue {
                    edge: eid,
                    kind: EdgeClueKind::Inequality { smaller_first: ec.value != Some(1i64) },
                },
            ],
            EdgeConstraintType::Difference => seq![
                EdgeClue {
                    edge: eid,
                    kind: EdgeClueKind::Diff {
                        value: match ec.value {
                            Some(v) => v as usize,
                            None => 0usize,
                        },
                    },
                },
            ],
            _ => Seq::empty(),
        },
        None => Seq::empty(),
    }
}

/// Horizontal-neighbour edges (`h_edges`) come first, row by row, then the
/// vertical-neighbour edges (`v_edges`); each yields its clue and, when it is
/// a pre-drawn boundary, a pre-cut entry.
pub open spec fn h_edge_ids(p: Puzzle, g: Grid, r: int, c: int) -> usize {
    g.spec_v_edge(r, c) as usize
}

pub open spec fn v_edge_ids(p: Puzzle, g: Grid, r: int, c: int) -> usize {
    g.spec_h_edge(r, c) as usize
}

pub open spec fn h_row_edge_clues(p: Puzzle, g: Grid, r: int, c: int) -> Seq<EdgeClue>
    decreases c,
{
    if c <= 0 {
        Seq::empty()
    } else {
        h_row_edge_clues(p, g, r, c - 1) + edge_clue_of(p.h_edges@[r]@[c - 1], h_edge_ids(p, g, r, c - 1))
    }
}

pub open spec fn v_row_edge_clues(p: Puzzle, g: Grid, r: int, c: int) -> Seq<EdgeClue>
    decreases c,
{
    if c <= 0 {
        Seq::empty()
    } else {
        v_row_edge_clues(p, g, r, c - 1) + edge_clue_of(p.v_edges@[r]@[c - 1], v_edge_ids(p, g, r, c - 1))
    }
}

pub open spec fn h_edge_clues(p: Puzzle, g: Grid, r: int) -> Seq<EdgeClue>
    decreases r,
{
    if r <= 0 {
        Seq::empty()
    } else {
        h_edge_clues(p, g, r - 1) + h_row_edge_clues(p, g, r - 1, p.width - 1)
    }
}

pub open spec fn v_edge_clues(p: Puzzle, g: Grid, r: int) -> Seq<EdgeClue>
    decreases r,
{
    if r <= 0 {
        Seq::empty()
    } else {
        v_edge_clues(p, g, r - 1) + v_row_edge_clues(p, g, r - 1, p.width as int)
    }
}

pub open spec fn pre_cut_of(e: Edge, eid: usize) -> Seq<EdgeId> {
    if e.is_boundary {
        seq![eid]
    } else {
        Seq::empty()
    }
}

pub open spec fn h_row_pre_cut(p: Puzzle, g: Grid, r: int, c: int) -> Seq<EdgeId>
    decreases c,
{
    if c <= 0 {
        Seq::empty()
    } else {
        h_row_pre_cut(p, g, r, c - 1) + pre_cut_of(p.h_edges@[r]@[c - 1], h_edge_ids(p, g, r, c - 1))
    }
}

pub open spec fn v_row_pre_cut(p: Puzzle, g: Grid, r: int, c: int) -> Seq<EdgeId>
    decreases c,
{
    if c <= 0 {
        Seq::empty()
    } else {
        v_row_pre_cut(p, g, r, c - 1) + pre_cut_of(p.v_edges@[r]@[c - 1], v_edge_ids(p, g, r, c - 1))
    }
}

pub open spec fn h_pre_cut(p: Puzzle, g: Grid, r: int) -> Seq<EdgeId>
    decreases r,
{
    if r <= 0 {
        Seq::empty()
    } else {
        h_pre_cut(p, g, r - 1) + h_row_pre_cut(p, g, r - 1, p.width - 1)
    }
}

pub open spec fn v_pre_cut(p: Puzzle, g: Grid, r: int) -> Seq<EdgeId>
    decreases r,
{
    if r <= 0 {
        Seq::empty()
    } else {
        v_pre_cut(p, g, r - 1) + v_row_pre_cut(p, g, r - 1, p.width as int)
    }
}

pub open spec fn vertex_clues_of(p: Puzzle, g: Grid, r: int, c: int) -> Seq<VertexClue> {
    match p.vertices@[r]@[c].watchtower {
        Some(v) => seq![VertexClue { vertex: g.spec_vertex(r, c) as usize, value: v as usize }],
        None => Seq::empty(),
    }
}

pub open spec fn row_vertex_clues(p: Puzzle, g: Grid, r: int, c: int) -> Seq<VertexClue>
    decreases c,
{
    if c <= 0 {
        Seq::empty()
    } else {
        row_vertex_clues(p, g, r, c - 1) + vertex_clues_of(p, g, r, c - 1)
    }
}

pub open spec fn all_vertex_clues(p: Puzzle, g: Grid, r: int) -> Seq<VertexClue>
    decreases r,
{
    if r <= 0 {
        Seq::empty()
    } else {
        all_vertex_clues(p, g, r - 1) + row_vertex_clues(p, g, r - 1, p.width + 1)
    }
}

/// Largest of 1 and every `precise` area / `range` minimum among the first
/// `k` rules.
pub open spec fn min_area_upto(p: Puzzle, k: int) -> int
    decreases k,
{
    if k <= 0 {
        1
    } else {
        let m = min_area_upto(p, k - 1);
        let rule = p.rules@[k - 1];
        let v: int = match rule.ctype {
            RuleType::Precise => match rule.params.area {
                Some(a) => a as usize as int,
                None => 0,
            },
            RuleType::Range => match rule.params.min {
                Some(a) => a as usize as int,
                None => 0,
            },
            _ => 0,
        };
        if v > m {
            v
        } else {
            m
        }
    }
}

fn push_cell_clues(out: &mut Vec<CellClue>, cell: &Cell, cid: usize)
    ensures
        final(out)@ == old(out)@ + cell_clues_of(*cell, cid),
{
    if cell.blocked {
        proof {
            assert(old(out)@ + Seq::<CellClue>::empty() == old(out)@);
        }
        return ;
    }
    let ghost o = out@;
    if let Some(number) = cell.number {
        out.push(CellClue::Area { cell: cid, value: number as usize });
    }
    let ghost oa = out@;
    if let Some(comp) = &cell.compass {
        let n = match comp.up {
            Some(v) => Some(v as usize),
            None => None,
        };
        let s = match comp.down {
            Some(v) => Some(v as usize),
            None => None,
        };
        let e = match comp.right {
            Some(v) => Some(v as usize),
            None => None,
        };
        let w = match comp.left {
            Some(v) => Some(v as usize),
            None => None,
        };
        out.push(CellClue::Compass { cell: cid, compass: CompassData { n, s, e, w } });
    }
    let ghost ob = out@;
    if let Some(fp) = &cell.fence_pattern {
        if let Some(kind) = palisade_kind(fp.as_slice()) {
            out.push(CellClue::Palisade { cell: cid, kind });
        }
    }
    proof {
        let c = cell_clues_of(*cell, cid);
        assert(out@ =~= o + c);
    }
}

fn push_edge(
    edge_clues: &mut Vec<EdgeClue>,
    pre_cut: &mut Vec<EdgeId>,
    e: &Edge,
    eid: EdgeId,
)
    ensures
        final(edge_clues)@ == old(edge_clues)@ + edge_clue_of(*e, eid),
        final(pre_cut)@ == old(pre_cut)@ + pre_cut_of(*e, eid),
{
    if e.is_boundary {
        pre_cut.push(eid);
    }
    match &e.constraint {
        Some(ec) => match ec.ctype {
            EdgeConstraintType::Inequality => {
                let smaller_first = match ec.value {
                    Some(v) => v != 1,
                    None => true,
                };
                edge_clues.push(EdgeClue { edge: eid, kind: EdgeClueKind::Inequality { smaller_first } });
            },
            EdgeConstraintType::Difference => {
                let value = match ec.value {
                    Some(v) => v as usize,
                    None => 0,
                };
                edge_clues.push(EdgeClue { edge: eid, kind: EdgeClueKind::Diff { value } });
            },
            _ => {},
        },
        None => {},
    }
    proof {
        assert(edge_clues@ =~= old(edge_clues)@ + edge_clue_of(*e, eid));
        assert(pre_cut@ =~= old(pre_cut)@ + pre_cut_of(*e, eid));
    }
}

/// The clue/pre-cut model of a puzzle, with `max_area` the caller's global
/// area upper bound.
pub open spec fn input_matches(p: Puzzle, max_area: usize, inp: Input) -> bool {
    let g = inp.grid;
    &&& g.wf()
    &&& g.rows == p.height
    &&& g.cols == p.width
    &&& forall|r: int, c: int|
        0 <= r < p.height && 0 <= c < p.width ==> g.cell_exists@[r * p.width + c] == !(
        #[trigger] p.cell(r, c)).blocked
    &&& inp.cell_clues@ == all_cell_clues(p, p.height as int)
    &&& inp.edge_clues@ == h_edge_clues(p, g, p.height as int) + v_edge_clues(p, g, p.height - 1)
    &&& inp.pre_cut@ == h_pre_cut(p, g, p.height as int) + v_pre_cut(p, g, p.height - 1)
    &&& inp.vertex_clues@ == all_vertex_clues(p, g, p.height + 1)
    &&& inp.rules.bricky == p.has_rule(RuleType::Brick)
    &&& inp.rules.loopy == p.has_rule(RuleType::Ring)
    &&& inp.rules.size_separation == p.has_rule(RuleType::Differentiation)
    &&& inp.rules.boxy == p.has_rule(RuleType::Block)
    &&& inp.rules.non_boxy == p.has_rule(RuleType::NonBlock)
    &&& inp.min_area == min_area_upto(p, p.rules@.len() as int)
    &&& inp.max_area == max_area
}

/// Digest a puzzle into the solver's input.  `max_area` is the global area
/// upper bound (`precise`/`range` capped by the largest pre-cut component),
/// which the caller computes.
pub fn build_input(puzzle: &Puzzle, max_area: usize) -> (inp: Input)
    requires
        puzzle.wf(),
    ensures
        input_matches(*puzzle, max_area, inp),
{
    let h = puzzle.height;
    let w = puzzle.width;
    proof {
        assert(h * w <= (h + 1) * (w + 1)) by (nonlinear_arith);
    }
    let n = h * w;
    let mut cell_exists: Vec<bool> = Vec::new();
    let mut idx: usize = 0;
    while idx < n
        invariant
            puzzle.wf(),
            h == puzzle.height,
            w == puzzle.width,
            n == h * w,
            idx <= n,
            cell_exists@.len() == idx,
            forall|k: int| 0 <= k < idx ==> #[trigger] cell_exists@[k] == !puzzle.cell(k / w as int, k % w as int).blocked,
        decreases n - idx,
    {
        proof {
            crate::edge_csp::grid::lemma_pos_bounds(h as int, w as int, idx as int);
        }
        cell_exists.push(!puzzle.cells[idx / w][idx % w].blocked);
        idx = idx + 1;
    }
    let grid = Grid::new(h, w, cell_exists);
    proof {
        assert forall|r: int, c: int| 0 <= r < h && 0 <= c < w implies grid.cell_exists@[r * w + c]
            == !(#[trigger] puzzle.cell(r, c)).blocked by {
            crate::edge_csp::grid::lemma_cell_id_bound(h as int, w as int, r, c);
        }
    }
    // Cell clues.
    let mut cell_clues: Vec<CellClue> = Vec::new();
    let mut r: usize = 0;
    while r < h
        invariant
            puzzle.wf(),
            grid.wf(),
            grid.rows == h,
            grid.cols == w,
            h == puzzle.height,
            w == puzzle.width,
            r <= h,
            cell_clues@ == all_cell_clues(*puzzle, r as int),
        decreases h - r,
    {
        let mut c: usize = 0;
        while c < w
            invariant
                puzzle.wf(),
                grid.wf(),
                grid.rows == h,
                grid.cols == w,
                h == puzzle.height,
                w == puzzle.width,
                r < h,
                c <= w,
                cell_clues@ == all_cell_clues(*puzzle, r as int) + row_cell_clues(*puzzle, r as int, c as int),
            decreases w - c,
        {
            let cid = grid.cell_id(r, c);
            push_cell_clues(&mut cell_clues, &puzzle.cells[r][c], cid);
            proof {
                assert(cell_clues@ =~= all_cell_clues(*puzzle, r as int) + row_cell_clues(*puzzle, r as int, c + 1));
            }
            c = c + 1;
        }
        r = r + 1;
    }
    // Edge clues + pre-cut edges.
    let mut edge_clues: Vec<EdgeClue> = Vec::new();
    let mut pre_cut: Vec<EdgeId> = Vec::new();
    let wm = if w > 0 {
        w - 1
    } else {
        0
    };
    let mut r: usize = 0;
    while r < h
        invariant
            puzzle.wf(),
            grid.wf(),
            grid.rows == h,
            grid.cols == w,
            h == puzzle.height,
            w == puzzle.width,
            wm == if w > 0 { w - 1 } else { 0 },
            r <= h,
            edge_clues@ == h_edge_clues(*puzzle, grid, r as int),
            pre_cut@ == h_pre_cut(*puzzle, grid, r as int),
        decreases h - r,
    {
        let mut c: usize = 0;
        while c < wm
            invariant
                puzzle.wf(),
                grid.wf(),
                grid.rows == h,
                grid.cols == w,
                h == puzzle.height,
                w == puzzle.width,
                wm == if w > 0 { w - 1 } else { 0 },
                r < h,
                c <= wm,
                edge_clues@ == h_edge_clues(*puzzle, grid, r as int) + h_row_edge_clues(*puzzle, grid, r as int, c as int),
                pre_cut@ == h_pre_cut(*puzzle, grid, r as int) + h_row_pre_cut(*puzzle, grid, r as int, c as int),
            decreases wm - c,
        {
            let a = grid.cell_id(r, c);
            let b = grid.cell_id(r, c + 1);
            proof {
                crate::edge_csp::grid::lemma_positions_roundtrip(grid, r as int, c as int, 0, 0);
                crate::edge_csp::grid::lemma_positions_roundtrip(grid, r as int, c + 1, 0, 0);
            }
            let eid = grid.edge_between(a, b).unwrap();
            push_edge(&mut edge_clues, &mut pre_cut, &puzzle.h_edges[r][c], eid);
            proof {
                assert(edge_clues@ =~= h_edge_clues(*puzzle, grid, r as int) + h_row_edge_clues(*puzzle, grid, r as int, c + 1));
                assert(pre_cut@ =~= h_pre_cut(*puzzle, grid, r as int) + h_row_pre_cut(*puzzle, grid, r as int, c + 1));
            }
            c = c + 1;
        }
        proof {
            assert(edge_clues@ =~= h_edge_clues(*puzzle, grid, r + 1));
            assert(pre_cut@ =~= h_pre_cut(*puzzle, grid, r + 1));
        }
        r = r + 1;
    }
    let ghost eh = edge_clues@;
    let ghost ph = pre_cut@;
    let hm = if h > 0 {
        h - 1
    } else {
        0
    };
    let mut r: usize = 0;
    proof {
        assert(edge_clues@ =~= eh + v_edge_clues(*puzzle, grid, 0));
        assert(pre_cut@ =~= ph + v_pre_cut(*puzzle, grid, 0));
    }
    while r < hm
        invariant
            puzzle.wf(),
            grid.wf(),
            grid.rows == h,
            grid.cols == w,
            h == puzzle.height,
            w == puzzle.width,
            hm == if h > 0 { h - 1 } else { 0 },
            r <= hm,
            edge_clues@ == eh + v_edge_clues(*puzzle, grid, r as int),
            pre_cut@ == ph + v_pre_cut(*puzzle, grid, r as int),
        decreases hm - r,
    {
        let mut c: usize = 0;
        while c < w
            invariant
                puzzle.wf(),
                grid.wf(),
                grid.rows == h,
                grid.cols == w,
                h == puzzle.height,
                w == puzzle.width,
                hm == if h > 0 { h - 1 } else { 0 },
                r < hm,
                c <= w,
                edge_clues@ == eh + v_edge_clues(*puzzle, grid, r as int) + v_row_edge_clues(*puzzle, grid, r as int, c as int),
                pre_cut@ == ph + v_pre_cut(*puzzle, grid, r as int) + v_row_pre_cut(*puzzle, grid, r as int, c as int),
            decreases w - c,
        {
            let a = grid.cell_id(r, c);
            let b = grid.cell_id(r + 1, c);
            proof {
                crate::edge_csp::grid::lemma_positions_roundtrip(grid, r as int, c as int, 0, 0);
                crate::edge_csp::grid::lemma_positions_roundtrip(grid, r + 1, c as int, 0, 0);
            }
            let eid = grid.edge_between(a, b).unwrap();
            push_edge(&mut edge_clues, &mut pre_cut, &puzzle.v_edges[r][c], eid);
            proof {
                assert(edge_clues@ =~= eh + v_edge_clues(*puzzle, grid, r as int) + v_row_edge_clues(*puzzle, grid, r as int, c + 1));
                assert(pre_cut@ =~= ph + v_pre_cut(*puzzle, grid, r as int) + v_row_pre_cut(*puzzle, grid, r as int, c + 1));
            }
            c = c + 1;
        }
        proof {
            assert(edge_clues@ =~= eh + v_edge_clues(*puzzle, grid, r + 1));
            assert(pre_cut@ =~= ph + v_pre_cut(*puzzle, grid, r + 1));
        }
        r = r + 1;
    }
    // Vertex clues (watchtower).
    proof {
        assert(w + 1 <= (h + 1) * (w + 1)) by (nonlinear_arith);
        assert(h + 1 <= (h + 1) * (w + 1)) by (nonlinear_arith);
    }
    let mut vertex_clues: Vec<VertexClue> = Vec::new();
    let mut r: usize = 0;
    while r <= h
        invariant
            puzzle.wf(),
            grid.wf(),
            grid.rows == h,
            grid.cols == w,
            h == puzzle.height,
            w == puzzle.width,
            r <= h + 1,
            h + 1 < usize::MAX,
            w + 1 < usize::MAX,
            vertex_clues@ == all_vertex_clues(*puzzle, grid, r as int),
        decreases h + 1 - r,
    {
        let mut c: usize = 0;
        while c <= w
            invariant
                puzzle.wf(),
                grid.wf(),
                grid.rows == h,
                grid.cols == w,
                h == puzzle.height,
                w == puzzle.width,
                r <= h,
                c <= w + 1,
                h + 1 < usize::MAX,
                w + 1 < usize::MAX,
                vertex_clues@ == all_vertex_clues(*puzzle, grid, r as int) + row_vertex_clues(*puzzle, grid, r as int, c as int),
            decreases w + 1 - c,
        {
            if let Some(v) = puzzle.vertices[r][c].watchtower {
                let vid = grid.vertex(r, c);
                vertex_clues.push(VertexClue { vertex: vid, value: v as usize });
            }
            proof {
                assert(vertex_clues@ =~= all_vertex_clues(*puzzle, grid, r as int) + row_vertex_clues(*puzzle, grid, r as int, c + 1));
            }
            c = c + 1;
        }
        r = r + 1;
    }
    // Global rules + area bounds.
    let rules = GlobalRules {
        bricky: puzzle.has_rule_type(RuleType::Brick),
        loopy: puzzle.has_rule_type(RuleType::Ring),
        size_separation: puzzle.has_rule_type(RuleType::Differentiation),
        boxy: puzzle.has_rule_type(RuleType::Block),
        non_boxy: puzzle.has_rule_type(RuleType::NonBlock),
    };
    let mut min_area: usize = 1;
    let mut i: usize = 0;
    while i < puzzle.rules.len()
        invariant
            i <= puzzle.rules@.len(),
            min_area == min_area_upto(*puzzle, i as int),
        decreases puzzle.rules@.len() - i,
    {
        let rule = &puzzle.rules[i];
        match rule.ctype {
            RuleType::Precise => {
                if let Some(v) = rule.params.area {
                    let v = v as usize;
                    if v > min_area {
                        min_area = v;
                    }
                }
            },
            RuleType::Range => {
                if let Some(v) = rule.params.min {
                    let v = v as usize;
                    if v > min_area {
                        min_area = v;
                    }
                }
            },
            _ => {},
        }
        i = i + 1;
    }
    Input { grid, cell_clues, edge_clues, vertex_clues, rules, pre_cut, min_area, max_area }
}

} // verus!
