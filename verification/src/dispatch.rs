//! Puzzle-level predicates the solver dispatch consults before choosing a
//! solver: which clue families are present, and a pre-search check that the
//! pre-drawn boundaries do not already break `ring` or `brick`.

use vstd::prelude::*;
use crate::types::{CompassClue, Puzzle, RuleType};

verus! {

/// Some cell carries an area number.
pub open spec fn spec_has_area_number_clues(p: Puzzle) -> bool {
    exists|r: int, c: int|
        0 <= r < p.height && 0 <= c < p.width && (#[trigger] p.cell(r, c)).number is Some
}

/// Whether some cell carries an area number.
pub fn has_area_number_clues(puzzle: &Puzzle) -> (b: bool)
    requires
        puzzle.wf(),
    ensures
        b == spec_has_area_number_clues(*puzzle),
{
    let mut r: usize = 0;
    while r < puzzle.height
        invariant
            puzzle.wf(),
            r <= puzzle.height,
            forall|rr: int, cc: int|
                0 <= rr < r && 0 <= cc < puzzle.width ==> (#[trigger] puzzle.cell(rr, cc)).number is None,
        decreases puzzle.height - r,
    {
        let mut c: usize = 0;
        while c < puzzle.width
            invariant
                puzzle.wf(),
                r < puzzle.height,
                c <= puzzle.width,
                forall|rr: int, cc: int|
                    0 <= rr < r && 0 <= cc < puzzle.width ==> (#[trigger] puzzle.cell(rr, cc)).number is None,
                forall|cc: int| 0 <= cc < c ==> (#[trigger] puzzle.cell(r as int, cc)).number is None,
            decreases puzzle.width - c,
        {
            if puzzle.cells[r][c].number.is_some() {
                assert(puzzle.cell(r as int, c as int).number is Some);
                return true;
            }
            c = c + 1;
        }
        r = r + 1;
    }
    false
}

/// A compass direction count that constrains: present and not negative.
pub open spec fn constrains(v: Option<i64>) -> bool {
    match v {
        Some(x) => x >= 0,
        None => false,
    }
}

pub open spec fn compass_constrains(comp: CompassClue) -> bool {
    constrains(comp.up) || constrains(comp.down) || constrains(comp.left) || constrains(
        comp.right,
    )
}

/// Some cell carries a compass with at least one constraining direction.
pub open spec fn spec_has_constrained_compass(p: Puzzle) -> bool {
    exists|r: int, c: int|
        0 <= r < p.height && 0 <= c < p.width && match (#[trigger] p.cell(r, c)).compass {
            Some(comp) => compass_constrains(comp),
            None => false,
        }
}

fn direction_constrains(v: Option<i64>) -> (b: bool)
    ensures
        b == constrains(v),
{
    match v {
        Some(x) => x >= 0,
        None => false,
    }
}

/// Whether some cell carries a compass with at least one constraining
/// direction.
pub fn has_constrained_compass(puzzle: &Puzzle) -> (b: bool)
    requires
        puzzle.wf(),
    ensures
        b == spec_has_constrained_compass(*puzzle),
{
    let mut r: usize = 0;
    while r < puzzle.height
        invariant
            puzzle.wf(),
            r <= puzzle.height,
            forall|rr: int, cc: int|
                0 <= rr < r && 0 <= cc < puzzle.width ==> !match (#[trigger] puzzle.cell(rr, cc)).compass {
                    Some(comp) => compass_constrains(comp),
                    None => false,
                },
        decreases puzzle.height - r,
    {
        let mut c: usize = 0;
        while c < puzzle.width
            invariant
                puzzle.wf(),
                r < puzzle.height,
                c <= puzzle.width,
                forall|rr: int, cc: int|
                    0 <= rr < r && 0 <= cc < puzzle.width ==> !match (#[trigger] puzzle.cell(rr, cc)).compass {
                        Some(comp) => compass_constrains(comp),
                        None => false,
                    },
                forall|cc: int|
                    0 <= cc < c ==> !match (#[trigger] puzzle.cell(r as int, cc)).compass {
                        Some(comp) => compass_constrains(comp),
                        None => false,
                    },
            decreases puzzle.width - c,
        {
            if let Some(comp) = puzzle.cells[r][c].compass {
                if direction_constrains(comp.up) || direction_constrains(comp.down)
                    || direction_constrains(comp.left) || direction_constrains(comp.right) {
                    assert(puzzle.cell(r as int, c as int).compass == Some(comp));
                    return true;
                }
            }
            c = c + 1;
        }
        r = r + 1;
    }
    false
}

pub open spec fn in_grid(p: Puzzle, r: int, c: int) -> bool {
    0 <= r < p.height && 0 <= c < p.width
}

/// The pre-drawn mark on the edge between side neighbours `(r1, c1)` and
/// `(r2, c2)`.
pub open spec fn pair_boundary(p: Puzzle, r1: int, c1: int, r2: int, c2: int) -> bool {
    if r1 == r2 {
        p.h_edges@[r1]@[if c1 < c2 {
            c1
        } else {
            c2
        }].is_boundary
    } else {
        p.v_edges@[if r1 < r2 {
            r1
        } else {
            r2
        }]@[c1].is_boundary
    }
}

/// The edge between two neighbouring positions is certainly a region
/// boundary: exactly one side is on the grid, or both are and it is
/// pre-drawn.
pub open spec fn pair_definite(p: Puzzle, r1: int, c1: int, r2: int, c2: int) -> bool {
    if in_grid(p, r1, c1) && in_grid(p, r2, c2) {
        pair_boundary(p, r1, c1, r2, c2)
    } else {
        in_grid(p, r1, c1) || in_grid(p, r2, c2)
    }
}

/// The edge is inside the grid and not pre-drawn: it may go either way.
pub open spec fn pair_open(p: Puzzle, r1: int, c1: int, r2: int, c2: int) -> bool {
    in_grid(p, r1, c1) && in_grid(p, r2, c2) && !pair_boundary(p, r1, c1, r2, c2)
}

pub open spec fn count(b: bool) -> int {
    if b {
        1
    } else {
        0
    }
}

/// Definite boundaries among the four edges meeting at grid point
/// `(vr, vc)`: top, bottom, left, right.
pub open spec fn vertex_definite(p: Puzzle, vr: int, vc: int) -> int {
    count(pair_definite(p, vr - 1, vc - 1, vr - 1, vc)) + count(
        pair_definite(p, vr, vc - 1, vr, vc),
    ) + count(pair_definite(p, vr - 1, vc - 1, vr, vc - 1)) + count(
        pair_definite(p, vr - 1, vc, vr, vc),
    )
}

pub open spec fn vertex_open(p: Puzzle, vr: int, vc: int) -> int {
    count(pair_open(p, vr - 1, vc - 1, vr - 1, vc)) + count(pair_open(p, vr, vc - 1, vr, vc))
        + count(pair_open(p, vr - 1, vc - 1, vr, vc - 1)) + count(
        pair_open(p, vr - 1, vc, vr, vc),
    )
}

/// Grid point `(vr, vc)` is certainly fine: no `ring` vertex with exactly
/// three boundaries and nothing open, no `brick` vertex with four.
pub open spec fn vertex_ok(p: Puzzle, vr: int, vc: int, ring: bool, brick: bool) -> bool {
    !(ring && vertex_definite(p, vr, vc) == 3 && vertex_open(p, vr, vc) == 0) && !(brick
        && vertex_definite(p, vr, vc) >= 4)
}

pub open spec fn spec_topology_ok(p: Puzzle) -> bool {
    let ring = p.has_rule(RuleType::Ring);
    let brick = p.has_rule(RuleType::Brick);
    !(ring || brick) || forall|vr: int, vc: int|
        0 <= vr <= p.height && 0 <= vc <= p.width ==> #[trigger] vertex_ok(p, vr, vc, ring, brick)
}

/// All four edges meeting at grid point `(vr, vc)` are certainly region
/// boundaries: four regions would meet there.
pub open spec fn vertex_closed(p: Puzzle, vr: int, vc: int) -> bool {
    &&& pair_definite(p, vr - 1, vc - 1, vr - 1, vc)
    &&& pair_definite(p, vr, vc - 1, vr, vc)
    &&& pair_definite(p, vr - 1, vc - 1, vr, vc - 1)
    &&& pair_definite(p, vr - 1, vc, vr, vc)
}

/// Under `brick`, a puzzle passes the topology check only if no grid point
/// has four certain boundaries.
pub proof fn lemma_brick_no_closed_vertex(p: Puzzle, vr: int, vc: int)
    requires
        p.has_rule(RuleType::Brick),
        spec_topology_ok(p),
        0 <= vr <= p.height,
        0 <= vc <= p.width,
    ensures
        !vertex_closed(p, vr, vc),
{
    assert(vertex_ok(p, vr, vc, p.has_rule(RuleType::Ring), true));
}

/// Under `brick` alone, the topology check rejects a puzzle exactly when some
/// grid point has all four of its edges certainly boundaries; three certain
/// boundaries (a T-junction, such as a pre-drawn line meeting the border)
/// are accepted.
pub proof fn lemma_brick_only_topology(p: Puzzle)
    requires
        p.has_rule(RuleType::Brick),
        !p.has_rule(RuleType::Ring),
    ensures
        spec_topology_ok(p) <==> forall|vr: int, vc: int|
            0 <= vr <= p.height && 0 <= vc <= p.width ==> !#[trigger] vertex_closed(p, vr, vc),
{
    if spec_topology_ok(p) {
        assert forall|vr: int, vc: int|
            0 <= vr <= p.height && 0 <= vc <= p.width implies !#[trigger] vertex_closed(p, vr, vc) by {
            lemma_brick_no_closed_vertex(p, vr, vc);
        }
    }
    if forall|vr: int, vc: int|
        0 <= vr <= p.height && 0 <= vc <= p.width ==> !#[trigger] vertex_closed(p, vr, vc) {
        assert forall|vr: int, vc: int|
            0 <= vr <= p.height && 0 <= vc <= p.width implies #[trigger] vertex_ok(p, vr, vc, false, true) by {
            assert(!vertex_closed(p, vr, vc));
        }
    }
}

fn in_bounds(puzzle: &Puzzle, r: isize, c: isize) -> (b: bool)
    requires
        puzzle.wf(),
    ensures
        b == in_grid(*puzzle, r as int, c as int),
{
    proof {
        assert((puzzle.height + 1) * (puzzle.width + 1) >= puzzle.height + 1) by (nonlinear_arith);
        assert((puzzle.height + 1) * (puzzle.width + 1) >= puzzle.width + 1) by (nonlinear_arith);
    }
    r >= 0 && r < puzzle.height as isize && c >= 0 && c < puzzle.width as isize
}

/// Definite-boundary and open counts (each 0 or 1) of the edge between the
/// neighbouring positions `(r1, c1)` and `(r2, c2)`.
fn pair_counts(puzzle: &Puzzle, r1: isize, c1: isize, r2: isize, c2: isize) -> (res: (usize, usize))
    requires
        puzzle.wf(),
        (r1 == r2 && c1 + 1 == c2) || (c1 == c2 && r1 + 1 == r2),
    ensures
        res.0 == count(pair_definite(*puzzle, r1 as int, c1 as int, r2 as int, c2 as int)),
        res.1 == count(pair_open(*puzzle, r1 as int, c1 as int, r2 as int, c2 as int)),
{
    let a_ok = in_bounds(puzzle, r1, c1);
    let b_ok = in_bounds(puzzle, r2, c2);
    if a_ok && b_ok {
        let boundary = if r1 == r2 {
            puzzle.h_edges[r1 as usize][c1 as usize].is_boundary
        } else {
            puzzle.v_edges[r1 as usize][c1 as usize].is_boundary
        };
        if boundary {
            (1, 0)
        } else {
            (0, 1)
        }
    } else if !a_ok && !b_ok {
        (0, 0)
    } else {
        (1, 0)
    }
}

/// Whether the pre-drawn boundaries leave `ring` and `brick` satisfiable at
/// every grid point (see `vertex_ok`); always true without either rule.
pub fn pre_search_topology_check(puzzle: &Puzzle) -> (ok: bool)
    requires
        puzzle.wf(),
    ensures
        ok == spec_topology_ok(*puzzle),
{
    let has_ring = puzzle.has_rule_type(RuleType::Ring);
    let has_brick = puzzle.has_rule_type(RuleType::Brick);
    if !has_ring && !has_brick {
        return true;
    }
    let h = puzzle.height;
    let w = puzzle.width;
    proof {
        assert((h + 1) * (w + 1) >= h + 1) by (nonlinear_arith);
        assert((h + 1) * (w + 1) >= w + 1) by (nonlinear_arith);
    }
    let mut vr: usize = 0;
    while vr <= h
        invariant
            puzzle.wf(),
            h == puzzle.height,
            w == puzzle.width,
            h + 1 <= isize::MAX,
            w + 1 <= isize::MAX,
            vr <= h + 1,
            has_ring == puzzle.has_rule(RuleType::Ring),
            has_brick == puzzle.has_rule(RuleType::Brick),
            forall|a: int, b: int|
                0 <= a < vr && 0 <= b <= w ==> #[trigger] vertex_ok(*puzzle, a, b, has_ring, has_brick),
        decreases h + 1 - vr,
    {
        let mut vc: usize = 0;
        while vc <= w
            invariant
                puzzle.wf(),
                h == puzzle.height,
                w == puzzle.width,
                h + 1 <= isize::MAX,
                w + 1 <= isize::MAX,
                vr <= h,
                vc <= w + 1,
                has_ring == puzzle.has_rule(RuleType::Ring),
                has_brick == puzzle.has_rule(RuleType::Brick),
                forall|a: int, b: int|
                    0 <= a < vr && 0 <= b <= w ==> #[trigger] vertex_ok(*puzzle, a, b, has_ring, has_brick),
                forall|b: int| 0 <= b < vc ==> #[trigger] vertex_ok(*puzzle, vr as int, b, has_ring, has_brick),
            decreases w + 1 - vc,
        {
            let r = vr as isize;
            let c = vc as isize;
            let (d0, u0) = pair_counts(puzzle, r - 1, c - 1, r - 1, c);
            let (d1, u1) = pair_counts(puzzle, r, c - 1, r, c);
            let (d2, u2) = pair_counts(puzzle, r - 1, c - 1, r, c - 1);
            let (d3, u3) = pair_counts(puzzle, r - 1, c, r, c);
            let def_boundary = d0 + d1 + d2 + d3;
            let unknown = u0 + u1 + u2 + u3;
            proof {
                assert(def_boundary == vertex_definite(*puzzle, vr as int, vc as int));
                assert(unknown == vertex_open(*puzzle, vr as int, vc as int));
            }
            if has_ring && def_boundary == 3 && unknown == 0 {
                assert(!vertex_ok(*puzzle, vr as int, vc as int, has_ring, has_brick));
                return false;
            }
            if has_brick && def_boundary >= 4 {
                assert(!vertex_ok(*puzzle, vr as int, vc as int, has_ring, has_brick));
                return false;
            }
            vc = vc + 1;
        }
        vr = vr + 1;
    }
    true
}

} // verus!
