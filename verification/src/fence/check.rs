//! Per-node fence-pattern check: prunes a branch as soon as the boundary
//! sides already decided around a fence cell contradict its pattern.
//!
//! A side is decided when the neighbour is off the grid or blocked (always a
//! boundary), already assigned (a boundary iff it is in another region), or
//! separated by a pre-drawn boundary.  The number of boundary sides of a
//! pattern is invariant under rotation and reflection, which gives a partial
//! check before all four sides are known; once they are, the class of the
//! cross they form must be the pattern's class.

use vstd::prelude::*;
use crate::edge_csp::adapter::{fp_has, spec_palisade_kind};
use crate::edge_csp::grid::lemma_cell_id_bound;
use crate::edge_csp::types::PalisadeKind;
use crate::fence::FenceCellData;
use crate::types::Puzzle;

verus! {

/// One boundary side of a cell: decided (with its value) or not yet.
#[derive(Clone, Copy, PartialEq, Eq, Structural, Debug)]
pub enum Bit {
    Determined(bool),
    Unknown,
}

/// The class under rotation and reflection of a cross with boundary sides
/// `up`, `down`, `left`, `right`.
pub open spec fn kind_of_sides(up: bool, down: bool, left: bool, right: bool) -> PalisadeKind {
    let n = (if up { 1int } else { 0int }) + (if down { 1int } else { 0int }) + (if left {
        1int
    } else {
        0int
    }) + (if right { 1int } else { 0int });
    if n == 0 {
        PalisadeKind::Empty
    } else if n == 1 {
        PalisadeKind::One
    } else if n == 4 {
        PalisadeKind::All
    } else if n == 3 {
        PalisadeKind::Three
    } else if (up && down) || (left && right) {
        PalisadeKind::Opposite
    } else {
        PalisadeKind::Adjacent
    }
}

/// The four sides of a cross, in the order up, down, left, right.
pub type Cross = (bool, bool, bool, bool);

/// The cross turned a quarter clockwise: what was on the left is now on top,
/// the top goes to the right, the right to the bottom, the bottom to the left.
pub open spec fn turn_cross(s: Cross) -> Cross {
    (s.2, s.3, s.1, s.0)
}

/// The cross mirrored left to right.
pub open spec fn mirror_cross(s: Cross) -> Cross {
    (s.0, s.1, s.3, s.2)
}

/// `b` is `a` turned by some multiple of a quarter, possibly after a mirror:
/// one of the eight symmetries of the square.
pub open spec fn same_cross_up_to_symmetry(a: Cross, b: Cross) -> bool {
    let m = mirror_cross(a);
    ||| b == a
    ||| b == turn_cross(a)
    ||| b == turn_cross(turn_cross(a))
    ||| b == turn_cross(turn_cross(turn_cross(a)))
    ||| b == m
    ||| b == turn_cross(m)
    ||| b == turn_cross(turn_cross(m))
    ||| b == turn_cross(turn_cross(turn_cross(m)))
}

/// The four arm markers of a fence pattern, in the order up, down, left,
/// right.
pub open spec fn pattern_cross(fp: Seq<[usize; 2]>) -> Cross {
    (fp_has(fp, 0, 1), fp_has(fp, 2, 1), fp_has(fp, 1, 0), fp_has(fp, 1, 2))
}

/// How many sides of the cross are boundaries.
pub open spec fn cross_count(s: Cross) -> int {
    (if s.0 { 1int } else { 0int }) + (if s.1 { 1int } else { 0int }) + (if s.2 { 1int } else { 0int })
        + (if s.3 { 1int } else { 0int })
}

/// Two crosses get the same class exactly when one is a rotation or
/// reflection of the other.
pub proof fn lemma_cross_class_is_symmetry_class(a: Cross, b: Cross)
    ensures
        kind_of_sides(a.0, a.1, a.2, a.3) == kind_of_sides(b.0, b.1, b.2, b.3)
            <==> same_cross_up_to_symmetry(a, b),
{
    let (a0, a1, a2, a3) = a;
    let (b0, b1, b2, b3) = b;
    if a0 {
        if a1 {
            if a2 {
                if a3 {
                } else {
                }
            } else {
                if a3 {
                } else {
                }
            }
        } else {
            if a2 {
                if a3 {
                } else {
                }
            } else {
                if a3 {
                } else {
                }
            }
        }
    } else {
        if a1 {
            if a2 {
                if a3 {
                } else {
                }
            } else {
                if a3 {
                } else {
                }
            }
        } else {
            if a2 {
                if a3 {
                } else {
                }
            } else {
                if a3 {
                } else {
                }
            }
        }
    }
}

/// The class of a cross of sides agrees with the class of a fence pattern
/// exactly when the cross is a rotation or reflection of the pattern's arms:
/// a straight pattern accepts both straight crosses, a corner pattern all
/// four corners, and so on.
pub proof fn lemma_cross_matches_pattern_class(s: Cross, fp: Seq<[usize; 2]>)
    ensures
        Some(kind_of_sides(s.0, s.1, s.2, s.3)) == spec_palisade_kind(fp)
            <==> same_cross_up_to_symmetry(pattern_cross(fp), s),
{
    let pc = pattern_cross(fp);
    assert(spec_palisade_kind(fp) == Some(kind_of_sides(pc.0, pc.1, pc.2, pc.3)));
    lemma_cross_class_is_symmetry_class(pc, s);
}

/// A symmetry of the square keeps the number of boundary sides.
pub proof fn lemma_symmetry_keeps_count(a: Cross, b: Cross)
    requires
        same_cross_up_to_symmetry(a, b),
    ensures
        cross_count(a) == cross_count(b),
{
}

fn sides_kind(up: bool, down: bool, left: bool, right: bool) -> (k: PalisadeKind)
    ensures
        k == kind_of_sides(up, down, left, right),
{
    let mut n: usize = 0;
    if up {
        n = n + 1;
    }
    if down {
        n = n + 1;
    }
    if left {
        n = n + 1;
    }
    if right {
        n = n + 1;
    }
    if n == 0 {
        PalisadeKind::Empty
    } else if n == 1 {
        PalisadeKind::One
    } else if n == 4 {
        PalisadeKind::All
    } else if n == 3 {
        PalisadeKind::Three
    } else if (up && down) || (left && right) {
        PalisadeKind::Opposite
    } else {
        PalisadeKind::Adjacent
    }
}

/// Whether a pre-drawn boundary separates `(r, c)` from its side neighbour
/// `(nr, nc)`.
pub open spec fn spec_edge_is_boundary(p: Puzzle, r: int, c: int, nr: int, nc: int) -> bool {
    if r == nr {
        p.h_edges@[r]@[if c < nc {
            c
        } else {
            nc
        }].is_boundary
    } else {
        p.v_edges@[if r < nr {
            r
        } else {
            nr
        }]@[c].is_boundary
    }
}

/// `(r, c)` and `(nr, nc)` are side neighbours on the grid.
pub open spec fn side_neighbours(p: Puzzle, r: int, c: int, nr: int, nc: int) -> bool {
    &&& 0 <= r < p.height && 0 <= c < p.width
    &&& 0 <= nr < p.height && 0 <= nc < p.width
    &&& (r == nr && (c + 1 == nc || nc + 1 == c)) || (c == nc && (r + 1 == nr || nr + 1 == r))
}

fn edge_is_boundary(puzzle: &Puzzle, r: usize, c: usize, nr: usize, nc: usize) -> (b: bool)
    requires
        puzzle.wf(),
        side_neighbours(*puzzle, r as int, c as int, nr as int, nc as int),
    ensures
        b == spec_edge_is_boundary(*puzzle, r as int, c as int, nr as int, nc as int),
{
    if r == nr {
        let min_c = if c < nc {
            c
        } else {
            nc
        };
        puzzle.h_edges[r][min_c].is_boundary
    } else {
        let min_r = if r < nr {
            r
        } else {
            nr
        };
        puzzle.v_edges[min_r][c].is_boundary
    }
}

/// The side of `(r, c)` (in region `my_rid`) toward `(r + dr, c + dc)`.
pub open spec fn spec_eval_bit(
    p: Puzzle,
    ctr: Seq<Option<usize>>,
    width: int,
    r: int,
    c: int,
    my_rid: usize,
    dr: int,
    dc: int,
) -> Bit {
    let nr = r + dr;
    let nc = c + dc;
    if nr < 0 || nc < 0 || nr >= p.height || nc >= p.width {
        Bit::Determined(true)
    } else if p.cell(nr, nc).blocked {
        Bit::Determined(true)
    } else {
        match ctr[nr * width + nc] {
            Some(n_rid) => Bit::Determined(n_rid != my_rid),
            None => if spec_edge_is_boundary(p, r, c, nr, nc) {
                Bit::Determined(true)
            } else {
                Bit::Unknown
            },
        }
    }
}

/// A unit step: one of up, down, left, right.
pub open spec fn unit_step(dr: int, dc: int) -> bool {
    (dr == -1 && dc == 0) || (dr == 1 && dc == 0) || (dr == 0 && dc == -1) || (dr == 0 && dc == 1)
}

fn eval_bit(
    puzzle: &Puzzle,
    cell_to_region: &[Option<usize>],
    width: usize,
    r: usize,
    c: usize,
    my_rid: usize,
    dr: i64,
    dc: i64,
) -> (b: Bit)
    requires
        puzzle.wf(),
        width == puzzle.width,
        r < puzzle.height,
        c < puzzle.width,
        cell_to_region@.len() >= puzzle.height * puzzle.width,
        unit_step(dr as int, dc as int),
    ensures
        b == spec_eval_bit(
            *puzzle,
            cell_to_region@,
            width as int,
            r as int,
            c as int,
            my_rid,
            dr as int,
            dc as int,
        ),
{
    proof {
        assert((puzzle.height + 1) * (puzzle.width + 1) >= puzzle.height + 1) by (nonlinear_arith);
        assert((puzzle.height + 1) * (puzzle.width + 1) >= puzzle.width + 1) by (nonlinear_arith);
        assert((puzzle.height + 1) * (puzzle.width + 1) >= puzzle.height * puzzle.width) by (nonlinear_arith);
    }
    let nr = r as i64 + dr;
    let nc = c as i64 + dc;
    if nr < 0 || nc < 0 || nr >= puzzle.height as i64 || nc >= puzzle.width as i64 {
        return Bit::Determined(true);
    }
    let nr = nr as usize;
    let nc = nc as usize;
    if puzzle.cells[nr][nc].blocked {
        return Bit::Determined(true);
    }
    proof {
        lemma_cell_id_bound(puzzle.height as int, puzzle.width as int, nr as int, nc as int);
    }
    match cell_to_region[nr * width + nc] {
        Some(n_rid) => Bit::Determined(n_rid != my_rid),
        None => {
            if edge_is_boundary(puzzle, r, c, nr, nc) {
                Bit::Determined(true)
            } else {
                Bit::Unknown
            }
        },
    }
}

pub open spec fn bit_decided(b: Bit) -> int {
    match b {
        Bit::Determined(_) => 1,
        Bit::Unknown => 0,
    }
}

pub open spec fn bit_boundary(b: Bit) -> int {
    match b {
        Bit::Determined(true) => 1,
        _ => 0,
    }
}

pub open spec fn bit_value(b: Bit) -> bool {
    b == Bit::Determined(true)
}

/// The four sides of fence cell `fc` (in region `rid`): up, down, left,
/// right.
pub open spec fn fence_bits(p: Puzzle, ctr: Seq<Option<usize>>, width: int, fc: FenceCellData, rid: usize) -> (Bit, Bit, Bit, Bit) {
    (
        spec_eval_bit(p, ctr, width, fc.r as int, fc.c as int, rid, -1, 0),
        spec_eval_bit(p, ctr, width, fc.r as int, fc.c as int, rid, 1, 0),
        spec_eval_bit(p, ctr, width, fc.r as int, fc.c as int, rid, 0, -1),
        spec_eval_bit(p, ctr, width, fc.r as int, fc.c as int, rid, 0, 1),
    )
}

/// Fence cell `fc` is still consistent with its pattern: unassigned, or the
/// decided boundary and non-boundary sides both fit the pattern's arm count,
/// and, once all four are decided, the cross they form is of the pattern's
/// class.
pub open spec fn fence_cell_ok(p: Puzzle, ctr: Seq<Option<usize>>, width: int, fc: FenceCellData) -> bool {
    match ctr[fc.r * width + fc.c] {
        None => true,
        Some(rid) => {
            let (u, d, l, rt) = fence_bits(p, ctr, width, fc, rid);
            let decided = bit_decided(u) + bit_decided(d) + bit_decided(l) + bit_decided(rt);
            let t = bit_boundary(u) + bit_boundary(d) + bit_boundary(l) + bit_boundary(rt);
            &&& t <= fc.arm_count
            &&& decided - t <= 4 - fc.arm_count
            &&& decided == 4 ==> Some(
                kind_of_sides(bit_value(u), bit_value(d), bit_value(l), bit_value(rt)),
            ) == fc.pattern_kind
        },
    }
}

/// A fence cell in a region whose four sides are all decided is accepted
/// exactly when the cross of its boundary sides is a rotation or reflection
/// of its pattern's arms (for a pattern whose arm count is its number of arm
/// markers).
pub proof fn lemma_decided_fence_cell_ok(
    p: Puzzle,
    ctr: Seq<Option<usize>>,
    width: int,
    fc: FenceCellData,
    fp: Seq<[usize; 2]>,
)
    requires
        fc.pattern_kind == spec_palisade_kind(fp),
        fc.arm_count == cross_count(pattern_cross(fp)),
        ctr[fc.r * width + fc.c] is Some,
        ({
            let (u, d, l, rt) = fence_bits(p, ctr, width, fc, ctr[fc.r * width + fc.c]->0);
            bit_decided(u) + bit_decided(d) + bit_decided(l) + bit_decided(rt) == 4
        }),
    ensures
        ({
            let (u, d, l, rt) = fence_bits(p, ctr, width, fc, ctr[fc.r * width + fc.c]->0);
            fence_cell_ok(p, ctr, width, fc) <==> same_cross_up_to_symmetry(
                pattern_cross(fp),
                (bit_value(u), bit_value(d), bit_value(l), bit_value(rt)),
            )
        }),
{
    let (u, d, l, rt) = fence_bits(p, ctr, width, fc, ctr[fc.r * width + fc.c]->0);
    let s = (bit_value(u), bit_value(d), bit_value(l), bit_value(rt));
    assert(bit_boundary(u) + bit_boundary(d) + bit_boundary(l) + bit_boundary(rt) == cross_count(s));
    lemma_cross_matches_pattern_class(s, fp);
    if same_cross_up_to_symmetry(pattern_cross(fp), s) {
        lemma_symmetry_keeps_count(pattern_cross(fp), s);
    }
}

/// Whether every fence cell is still consistent with its pattern (see
/// `fence_cell_ok`).
pub fn check_fence_patterns(
    puzzle: &Puzzle,
    cell_to_region: &[Option<usize>],
    width: usize,
    fence_cells: &[FenceCellData],
) -> (ok: bool)
    requires
        puzzle.wf(),
        width == puzzle.width,
        cell_to_region@.len() >= puzzle.height * puzzle.width,
        forall|i: int|
            0 <= i < fence_cells@.len() ==> (#[trigger] fence_cells@[i]).r < puzzle.height
                && fence_cells@[i].c < puzzle.width && fence_cells@[i].arm_count <= 4,
    ensures
        ok == forall|i: int|
            0 <= i < fence_cells@.len() ==> fence_cell_ok(
                *puzzle,
                cell_to_region@,
                width as int,
                #[trigger] fence_cells@[i],
            ),
{
    let mut i: usize = 0;
    while i < fence_cells.len()
        invariant
            puzzle.wf(),
            width == puzzle.width,
            cell_to_region@.len() >= puzzle.height * puzzle.width,
            forall|j: int|
                0 <= j < fence_cells@.len() ==> (#[trigger] fence_cells@[j]).r < puzzle.height
                    && fence_cells@[j].c < puzzle.width && fence_cells@[j].arm_count <= 4,
            i <= fence_cells@.len(),
            forall|j: int|
                0 <= j < i ==> fence_cell_ok(
                    *puzzle,
                    cell_to_region@,
                    width as int,
                    #[trigger] fence_cells@[j],
                ),
        decreases fence_cells@.len() - i,
    {
        let fc = fence_cells[i];
        proof {
            assert((puzzle.height + 1) * (puzzle.width + 1) >= puzzle.height * puzzle.width) by (nonlinear_arith);
            lemma_cell_id_bound(puzzle.height as int, puzzle.width as int, fc.r as int, fc.c as int);
        }
        let my_rid = match cell_to_region[fc.r * width + fc.c] {
            Some(rid) => rid,
            None => {
                i = i + 1;
                continue;
            },
        };
        let bu = eval_bit(puzzle, cell_to_region, width, fc.r, fc.c, my_rid, -1, 0);
        let bd = eval_bit(puzzle, cell_to_region, width, fc.r, fc.c, my_rid, 1, 0);
        let bl = eval_bit(puzzle, cell_to_region, width, fc.r, fc.c, my_rid, 0, -1);
        let br = eval_bit(puzzle, cell_to_region, width, fc.r, fc.c, my_rid, 0, 1);
        let mut bits = [false;4];
        let mut determined: usize = 0;
        let mut true_count: usize = 0;
        let all = [bu, bd, bl, br];
        let mut k: usize = 0;
        while k < 4
            invariant
                k <= 4,
                all == [bu, bd, bl, br],
                determined == (if k > 0 { bit_decided(bu) } else { 0 }) + (if k > 1 { bit_decided(bd) } else { 0 })
                    + (if k > 2 { bit_decided(bl) } else { 0 }) + (if k > 3 { bit_decided(br) } else { 0 }),
                true_count == (if k > 0 { bit_boundary(bu) } else { 0 }) + (if k > 1 { bit_boundary(bd) } else { 0 })
                    + (if k > 2 { bit_boundary(bl) } else { 0 }) + (if k > 3 { bit_boundary(br) } else { 0 }),
                forall|j: int| 0 <= j < k ==> bits[j] == bit_value(#[trigger] all[j]),
                forall|j: int| k <= j < 4 ==> !#[trigger] bits[j],
            decreases 4 - k,
        {
            match all[k] {
                Bit::Determined(v) => {
                    bits[k] = v;
                    determined = determined + 1;
                    if v {
                        true_count = true_count + 1;
                    }
                },
                Bit::Unknown => {},
            }
            k = k + 1;
        }
        let false_count = determined - true_count;
        let arms = fc.arm_count;
        if true_count > arms || false_count > 4 - arms {
            return false;
        }
        if determined == 4 {
            proof {
                assert(bits[0] == bit_value(all[0]));
                assert(bits[1] == bit_value(all[1]));
                assert(bits[2] == bit_value(all[2]));
                assert(bits[3] == bit_value(all[3]));
            }
            let kind = sides_kind(bits[0], bits[1], bits[2], bits[3]);
            let same = match fc.pattern_kind {
                Some(pk) => pk == kind,
                None => false,
            };
            if !same {
                return false;
            }
        }
        i = i + 1;
    }
    true
}

} // verus!
