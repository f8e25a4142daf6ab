//! Edge-variable CSP solver: grid geometry, clue model, the edge store with
//! its undo trail, and the routing predicates that decide which puzzles the
//! solver takes.

pub mod adapter;
pub mod areas;
pub mod boxy;
pub mod components;
pub mod degree;
pub mod grid;
pub mod palisade;
pub mod parity;
pub mod parity_uf;
pub mod polyomino;
pub mod shape_laws;
pub mod prop;
pub mod solver;
pub mod types;
pub mod vparity;
pub mod watch;

use vstd::prelude::*;
use crate::types::{Puzzle, RuleType};

verus! {

/// Every rule type this solver either propagates or tolerates (leaving it to
/// the final validation).
pub open spec fn is_supported_rule(t: RuleType) -> bool {
    match t {
        RuleType::Ring | RuleType::Brick | RuleType::Watchtower | RuleType::Compass
        | RuleType::Inequality | RuleType::Difference | RuleType::Area | RuleType::Precise
        | RuleType::Range | RuleType::Fence | RuleType::Differentiation | RuleType::Block
        | RuleType::NonBlock | RuleType::Solitary | RuleType::RoseWindow | RuleType::Same
        | RuleType::Different | RuleType::Homogeneous | RuleType::Mixed
        | RuleType::Heterogeneous => true,
        _ => false,
    }
}

/// Rules whose constraints live on edges.
pub open spec fn is_edge_rule(t: RuleType) -> bool {
    match t {
        RuleType::Ring | RuleType::Brick | RuleType::Watchtower | RuleType::Compass
        | RuleType::Inequality | RuleType::Difference | RuleType::Fence => true,
        _ => false,
    }
}

/// The area family.
pub open spec fn is_area_rule(t: RuleType) -> bool {
    match t {
        RuleType::Area | RuleType::Precise | RuleType::Range => true,
        _ => false,
    }
}

/// Number of fillable (non-blocked) cells among the first `w` of a row.
pub open spec fn row_fillable(row: Seq<crate::types::Cell>, w: int) -> nat
    decreases w,
{
    if w <= 0 {
        0
    } else {
        row_fillable(row, w - 1) + if row[w - 1].blocked {
            0nat
        } else {
            1nat
        }
    }
}

/// Number of fillable cells in the first `h` rows.
pub open spec fn grid_fillable(p: Puzzle, h: int) -> nat
    decreases h,
{
    if h <= 0 {
        0
    } else {
        grid_fillable(p, h - 1) + row_fillable(p.cells@[h - 1]@, p.width as int)
    }
}

/// Some fillable cell carries an area number.
pub open spec fn has_numbered_cell(p: Puzzle) -> bool {
    exists|r: int, c: int|
        0 <= r < p.height && 0 <= c < p.width && !(#[trigger] p.cell(r, c)).blocked && p.cell(
            r,
            c,
        ).number.is_some()
}

/// A rule bounds region areas restrictively for a board with `fillable`
/// fillable cells: `precise` with an area, or `range` with `min > 1` or
/// `max < fillable`.
pub open spec fn restrictive_bound(rule: crate::types::Rule, fillable: int) -> bool {
    match rule.ctype {
        RuleType::Precise => rule.params.area.is_some(),
        RuleType::Range => (rule.params.min.is_some() && rule.params.min.unwrap() > 1) || (
        rule.params.max.is_some() && rule.params.max.unwrap() < fillable),
        _ => false,
    }
}

/// An area-family puzzle carries something the propagator can act on.
pub open spec fn spec_has_area_signal(p: Puzzle) -> bool {
    has_numbered_cell(p) || (grid_fillable(p, p.height as int) > 0 && exists|i: int|
        0 <= i < p.rules@.len() && restrictive_bound(
            #[trigger] p.rules@[i],
            grid_fillable(p, p.height as int) as int,
        ))
}

pub open spec fn spec_edge_csp_capable(p: Puzzle) -> bool {
    &&& forall|i: int| 0 <= i < p.rules@.len() ==> is_supported_rule((#[trigger] p.rules@[i]).ctype)
    &&& (exists|i: int| 0 <= i < p.rules@.len() && is_edge_rule((#[trigger] p.rules@[i]).ctype))
        || ((exists|i: int| 0 <= i < p.rules@.len() && is_area_rule((#[trigger] p.rules@[i]).ctype))
        && spec_has_area_signal(p))
}

fn supported_rule(t: RuleType) -> (r: bool)
    ensures
        r == is_supported_rule(t),
{
    match t {
        RuleType::Ring | RuleType::Brick | RuleType::Watchtower | RuleType::Compass
        | RuleType::Inequality | RuleType::Difference | RuleType::Area | RuleType::Precise
        | RuleType::Range | RuleType::Fence | RuleType::Differentiation | RuleType::Block
        | RuleType::NonBlock | RuleType::Solitary | RuleType::RoseWindow | RuleType::Same
        | RuleType::Different | RuleType::Homogeneous | RuleType::Mixed
        | RuleType::Heterogeneous => true,
        _ => false,
    }
}

fn edge_rule(t: RuleType) -> (r: bool)
    ensures
        r == is_edge_rule(t),
{
    match t {
        RuleType::Ring | RuleType::Brick | RuleType::Watchtower | RuleType::Compass
        | RuleType::Inequality | RuleType::Difference | RuleType::Fence => true,
        _ => false,
    }
}

fn area_rule(t: RuleType) -> (r: bool)
    ensures
        r == is_area_rule(t),
{
    match t {
        RuleType::Area | RuleType::Precise | RuleType::Range => true,
        _ => false,
    }
}

/// Post-fallback trigger: puzzles whose rules are all supported, and that
/// carry an edge rule, or an area-family rule together with usable area
/// information.
pub fn is_edge_csp_capable(puzzle: &Puzzle) -> (r: bool)
    requires
        puzzle.wf(),
    ensures
        r == spec_edge_csp_capable(*puzzle),
{
    let n = puzzle.rules.len();
    let mut i: usize = 0;
    while i < n
        invariant
            n == puzzle.rules@.len(),
            i <= n,
            forall|k: int| 0 <= k < i ==> is_supported_rule((#[trigger] puzzle.rules@[k]).ctype),
        decreases n - i,
    {
        if !supported_rule(puzzle.rules[i].ctype) {
            return false;
        }
        i = i + 1;
    }
    let mut i: usize = 0;
    while i < n
        invariant
            n == puzzle.rules@.len(),
            i <= n,
            forall|k: int| 0 <= k < i ==> !is_edge_rule((#[trigger] puzzle.rules@[k]).ctype),
            forall|k: int| 0 <= k < n ==> is_supported_rule((#[trigger] puzzle.rules@[k]).ctype),
        decreases n - i,
    {
        if edge_rule(puzzle.rules[i].ctype) {
            proof {
                assert(is_edge_rule(puzzle.rules@[i as int].ctype));
            }
            return true;
        }
        i = i + 1;
    }
    let mut i: usize = 0;
    let mut any_area = false;
    while i < n
        invariant
            n == puzzle.rules@.len(),
            i <= n,
            !any_area ==> forall|k: int| 0 <= k < i ==> !is_area_rule((#[trigger] puzzle.rules@[k]).ctype),
            any_area ==> exists|k: int| 0 <= k < n && is_area_rule((#[trigger] puzzle.rules@[k]).ctype),
            forall|k: int| 0 <= k < n ==> !is_edge_rule((#[trigger] puzzle.rules@[k]).ctype),
            forall|k: int| 0 <= k < n ==> is_supported_rule((#[trigger] puzzle.rules@[k]).ctype),
        decreases n - i,
    {
        if area_rule(puzzle.rules[i].ctype) {
            any_area = true;
            proof {
                assert(is_area_rule(puzzle.rules@[i as int].ctype));
            }
        }
        i = i + 1;
    }
    if !any_area {
        return false;
    }
    has_area_signal(puzzle)
}

/// Whether an area-family puzzle (no edge rule) carries something the
/// propagator can act on: an area number on a fillable cell, or a
/// `precise`/`range` bound that really restricts region sizes.
pub fn has_area_signal(puzzle: &Puzzle) -> (r: bool)
    requires
        puzzle.wf(),
    ensures
        r == spec_has_area_signal(*puzzle),
{
    let h = puzzle.height;
    let w = puzzle.width;
    let mut fillable: usize = 0;
    let mut r: usize = 0;
    while r < h
        invariant
            puzzle.wf(),
            h == puzzle.height,
            w == puzzle.width,
            r <= h,
            fillable == grid_fillable(*puzzle, r as int),
            fillable <= r * w,
            forall|rr: int, cc: int|
                0 <= rr < r && 0 <= cc < w ==> !(!(#[trigger] puzzle.cell(rr, cc)).blocked
                    && puzzle.cell(rr, cc).number.is_some()),
        decreases h - r,
    {
        let mut c: usize = 0;
        let ghost base = fillable;
        while c < w
            invariant
                puzzle.wf(),
                h == puzzle.height,
                w == puzzle.width,
                r < h,
                c <= w,
                fillable == base + row_fillable(puzzle.cells@[r as int]@, c as int),
                base == grid_fillable(*puzzle, r as int),
                base <= r * w,
                fillable <= base + c,
                forall|rr: int, cc: int|
                    0 <= rr < r && 0 <= cc < w ==> !(!(#[trigger] puzzle.cell(rr, cc)).blocked
                        && puzzle.cell(rr, cc).number.is_some()),
                forall|cc: int|
                    0 <= cc < c ==> !(!(#[trigger] puzzle.cell(r as int, cc)).blocked
                        && puzzle.cell(r as int, cc).number.is_some()),
            decreases w - c,
        {
            proof {
                assert((r + 1) * w == r * w + w) by (nonlinear_arith);
                assert((r + 1) * w <= h * w) by (nonlinear_arith)
                    requires
                        r < h,
                ;
                assert(h * w <= (h + 1) * (w + 1)) by (nonlinear_arith);
            }
            let cell = &puzzle.cells[r][c];
            if !cell.blocked {
                fillable = fillable + 1;
                if cell.number.is_some() {
                    proof {
                        assert(!puzzle.cell(r as int, c as int).blocked && puzzle.cell(
                            r as int,
                            c as int,
                        ).number.is_some());
                    }
                    return true;
                }
            }
            c = c + 1;
        }
        proof {
            assert(fillable <= (r + 1) * w) by (nonlinear_arith)
                requires
                    fillable <= base + w,
                    base <= r * w,
            ;
        }
        r = r + 1;
    }
    assert(!has_numbered_cell(*puzzle));
    if fillable == 0 {
        return false;
    }
    let n = puzzle.rules.len();
    let mut i: usize = 0;
    while i < n
        invariant
            n == puzzle.rules@.len(),
            i <= n,
            fillable == grid_fillable(*puzzle, puzzle.height as int),
            fillable > 0,
            forall|k: int| 0 <= k < i ==> !restrictive_bound(#[trigger] puzzle.rules@[k], fillable as int),
        decreases n - i,
    {
        let rule = &puzzle.rules[i];
        match rule.ctype {
            RuleType::Precise => {
                if rule.params.area.is_some() {
                    proof {
                        assert(restrictive_bound(puzzle.rules@[i as int], fillable as int));
                    }
                    return true;
                }
            },
            RuleType::Range => {
                if let Some(v) = rule.params.min {
                    if v > 1 {
                        proof {
                            assert(restrictive_bound(puzzle.rules@[i as int], fillable as int));
                        }
                        return true;
                    }
                }
                if let Some(v) = rule.params.max {
                    if (v as u128) < (fillable as u128) {
                        proof {
                            assert(restrictive_bound(puzzle.rules@[i as int], fillable as int));
                        }
                        return true;
                    }
                }
            },
            _ => {},
        }
        i = i + 1;
    }
    false
}

/// Edge-rule puzzles with no size constraint at all (`precise` / `range` /
/// `shape_pool` / `puzzle_piece`).
pub fn is_edge_csp_preempt(puzzle: &Puzzle) -> (r: bool)
    requires
        puzzle.wf(),
    ensures
        r == (spec_edge_csp_capable(*puzzle) && !puzzle.has_rule(RuleType::Precise)
            && !puzzle.has_rule(RuleType::Range) && !puzzle.has_rule(RuleType::ShapePool)
            && !puzzle.has_rule(RuleType::PuzzlePiece)),
{
    let has_edge = is_edge_csp_capable(puzzle);
    let has_size = puzzle.has_rule_type(RuleType::Precise) || puzzle.has_rule_type(RuleType::Range)
        || puzzle.has_rule_type(RuleType::ShapePool) || puzzle.has_rule_type(RuleType::PuzzlePiece);
    has_edge && !has_size
}

} // verus!
