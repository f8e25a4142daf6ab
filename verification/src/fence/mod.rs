//! Fence-rule support for the backtracking search: the cells carrying a
//! `fence_pattern`, with what the per-node check needs pre-computed, and the
//! check itself (in `check`).

pub mod check;

use vstd::prelude::*;
use crate::edge_csp::adapter::{palisade_kind, spec_palisade_kind};
use crate::edge_csp::types::PalisadeKind;
use crate::types::{Puzzle, RuleType};

verus! {

/// A cell carrying a `fence_pattern` clue.
#[derive(Debug, Clone, Copy)]
pub struct FenceCellData {
    pub r: usize,
    pub c: usize,
    /// Number of arms in the pattern: its length less the centre.
    pub arm_count: usize,
    /// The pattern's class under rotation and reflection.
    pub pattern_kind: Option<PalisadeKind>,
}

/// The data recorded for cell `(r, c)`: one entry when it carries a fence
/// pattern, none otherwise.
pub open spec fn fence_item(p: Puzzle, r: int, c: int) -> Seq<FenceCellData> {
    match p.cell(r, c).fence_pattern {
        Some(fp) => seq![
            FenceCellData {
                r: r as usize,
                c: c as usize,
                arm_count: if fp@.len() > 0 {
                    (fp@.len() - 1) as usize
                } else {
                    0
                },
                pattern_kind: spec_palisade_kind(fp@),
            },
        ],
        None => Seq::empty(),
    }
}

/// Fence cells of row `r` with column below `c`, left to right.
pub open spec fn fence_row(p: Puzzle, r: int, c: int) -> Seq<FenceCellData>
    decreases c,
{
    if c <= 0 {
        Seq::empty()
    } else {
        fence_row(p, r, c - 1) + fence_item(p, r, c - 1)
    }
}

/// Fence cells of the rows above `r`, in row-major order.
pub open spec fn fence_rows(p: Puzzle, r: int) -> Seq<FenceCellData>
    decreases r,
{
    if r <= 0 {
        Seq::empty()
    } else {
        fence_rows(p, r - 1) + fence_row(p, r - 1, p.width as int)
    }
}

/// Every fence-pattern cell in row-major order, or nothing when the puzzle
/// has no `fence` rule.
pub fn build_fence_cells(puzzle: &Puzzle) -> (out: Vec<FenceCellData>)
    requires
        puzzle.wf(),
    ensures
        out@ == if puzzle.has_rule(RuleType::Fence) {
            fence_rows(*puzzle, puzzle.height as int)
        } else {
            Seq::empty()
        },
{
    if !puzzle.has_rule_type(RuleType::Fence) {
        return Vec::new();
    }
    let mut out: Vec<FenceCellData> = Vec::new();
    let mut r: usize = 0;
    while r < puzzle.height
        invariant
            puzzle.wf(),
            r <= puzzle.height,
            out@ == fence_rows(*puzzle, r as int),
        decreases puzzle.height - r,
    {
        let mut c: usize = 0;
        while c < puzzle.width
            invariant
                puzzle.wf(),
                r < puzzle.height,
                c <= puzzle.width,
                out@ == fence_rows(*puzzle, r as int) + fence_row(*puzzle, r as int, c as int),
            decreases puzzle.width - c,
        {
            let ghost before = out@;
            match &puzzle.cells[r][c].fence_pattern {
                Some(fp) => {
                    let arm_count = if fp.len() > 0 {
                        fp.len() - 1
                    } else {
                        0
                    };
                    out.push(
                        FenceCellData {
                            r,
                            c,
                            arm_count,
                            pattern_kind: palisade_kind(fp.as_slice()),
                        },
                    );
                },
                None => {},
            }
            proof {
                assert(fence_row(*puzzle, r as int, c + 1) == fence_row(*puzzle, r as int, c as int)
                    + fence_item(*puzzle, r as int, c as int));
                assert(out@ == fence_rows(*puzzle, r as int) + fence_row(*puzzle, r as int, c + 1));
            }
            c = c + 1;
        }
        proof {
            assert(out@ == fence_rows(*puzzle, r + 1));
        }
        r = r + 1;
    }
    out
}

} // verus!
