//! Rose-window solver support: cell bitsets, pre-drawn boundaries and the
//! symbol bookkeeping.

pub mod cells;
pub mod cover;
pub mod growth;
pub mod partition;
pub mod pin;
pub mod region_match;

use vstd::prelude::*;
use std::collections::HashMap;
use crate::types::{Cell, Puzzle};

verus! {

/// Index of the first symbol type equal to `sym`, or `types.len()` when none
/// is.
pub open spec fn type_position(types: Seq<String>, sym: Seq<char>) -> int
    decreases types.len(),
{
    if types.len() == 0 {
        0
    } else if type_position(types.drop_last(), sym) < types.len() - 1 {
        type_position(types.drop_last(), sym)
    } else if types.last()@ == sym {
        types.len() - 1
    } else {
        types.len() as int
    }
}

/// The symbol-type index of a cell, if its symbol is one of `types`.
pub open spec fn cell_type(types: Seq<String>, cell: Cell) -> Option<int> {
    match cell.symbol {
        Some(s) => if type_position(types, s@) < types.len() {
            Some(type_position(types, s@))
        } else {
            None
        },
        None => None,
    }
}

/// Cells of type `ti` among the first `w` of a row.
pub open spec fn row_type_count(types: Seq<String>, row: Seq<Cell>, ti: int, w: int) -> nat
    decreases w,
{
    if w <= 0 {
        0
    } else {
        row_type_count(types, row, ti, w - 1) + if cell_type(types, row[w - 1]) == Some(ti) {
            1nat
        } else {
            0nat
        }
    }
}

/// Cells of type `ti` in the first `h` rows.
pub open spec fn type_count(types: Seq<String>, p: Puzzle, ti: int, h: int) -> nat
    decreases h,
{
    if h <= 0 {
        0
    } else {
        type_count(types, p, ti, h - 1) + row_type_count(types, p.cells@[h - 1]@, ti, p.width as int)
    }
}

/// Number of rose regions: the common count of every symbol type, or 0 if
/// the counts differ (or there are no types).
pub open spec fn spec_rose_m(p: Puzzle, types: Seq<String>) -> int {
    if types.len() == 0 {
        0
    } else if forall|ti: int|
        0 <= ti < types.len() ==> #[trigger] type_count(types, p, ti, p.height as int) == type_count(
            types,
            p,
            0,
            p.height as int,
        ) {
        type_count(types, p, 0, p.height as int) as int
    } else {
        0
    }
}

pub proof fn lemma_type_position_bound(types: Seq<String>, sym: Seq<char>)
    ensures
        0 <= type_position(types, sym) <= types.len(),
        type_position(types, sym) < types.len() ==> types[type_position(types, sym)]@ == sym,
        forall|j: int| 0 <= j < type_position(types, sym) ==> types[j]@ != sym,
    decreases types.len(),
{
    if types.len() > 0 {
        lemma_type_position_bound(types.drop_last(), sym);
        assert forall|j: int| 0 <= j < type_position(types, sym) implies types[j]@ != sym by {
            if j < types.len() - 1 {
                assert(types[j] == types.drop_last()[j]);
            }
        }
    }
}

/// Position of `sym` among the symbol types (the first match).
pub fn symbol_position(types: &[String], sym: &String) -> (r: Option<usize>)
    ensures
        r.is_some() <==> type_position(types@, sym@) < types@.len(),
        r.is_some() ==> r.unwrap() == type_position(types@, sym@),
{
    proof {
        lemma_type_position_bound(types@, sym@);
    }
    let mut t: usize = 0;
    while t < types.len()
        invariant
            t <= types@.len(),
            forall|j: int| 0 <= j < t ==> types@[j]@ != sym@,
            0 <= type_position(types@, sym@) <= types@.len(),
            type_position(types@, sym@) < types@.len() ==> types@[type_position(types@, sym@)]@ == sym@,
            forall|j: int| 0 <= j < type_position(types@, sym@) ==> types@[j]@ != sym@,
        decreases types@.len() - t,
    {
        if types[t] == *sym {
            return Some(t);
        }
        t = t + 1;
    }
    None
}

fn count_types(puzzle: &Puzzle, symbol_types: &[String]) -> (counts: Vec<usize>)
    requires
        puzzle.wf(),
    ensures
        counts@.len() == symbol_types@.len(),
        forall|ti: int|
            0 <= ti < counts@.len() ==> #[trigger] counts@[ti] == type_count(
                symbol_types@,
                *puzzle,
                ti,
                puzzle.height as int,
            ),
{
    let nt = symbol_types.len();
    let mut counts: Vec<usize> = vec![0usize; nt];
    let mut r: usize = 0;
    while r < puzzle.height
        invariant
            puzzle.wf(),
            r <= puzzle.height,
            counts@.len() == nt,
            nt == symbol_types@.len(),
            forall|ti: int|
                0 <= ti < nt ==> #[trigger] counts@[ti] == type_count(symbol_types@, *puzzle, ti, r as int),
            forall|ti: int| 0 <= ti < nt ==> #[trigger] counts@[ti] <= r * puzzle.width,
        decreases puzzle.height - r,
    {
        let ghost base = counts@;
        let mut c: usize = 0;
        while c < puzzle.width
            invariant
                puzzle.wf(),
                r < puzzle.height,
                c <= puzzle.width,
                counts@.len() == nt,
                nt == symbol_types@.len(),
                base.len() == nt,
                forall|ti: int|
                    0 <= ti < nt ==> #[trigger] base[ti] == type_count(symbol_types@, *puzzle, ti, r as int),
                forall|ti: int| 0 <= ti < nt ==> #[trigger] base[ti] <= r * puzzle.width,
                forall|ti: int|
                    0 <= ti < nt ==> #[trigger] counts@[ti] == base[ti] + row_type_count(
                        symbol_types@,
                        puzzle.cells@[r as int]@,
                        ti,
                        c as int,
                    ),
                forall|ti: int| 0 <= ti < nt ==> #[trigger] counts@[ti] <= base[ti] + c,
            decreases puzzle.width - c,
        {
            proof {
                assert(r * puzzle.width + c < puzzle.height * puzzle.width) by (nonlinear_arith)
                    requires
                        r < puzzle.height,
                        c < puzzle.width,
                ;
                assert(puzzle.height * puzzle.width <= (puzzle.height + 1) * (puzzle.width + 1))
                    by (nonlinear_arith);
            }
            let ghost before = counts@;
            match &puzzle.cells[r][c].symbol {
                Some(sym) => {
                    match symbol_position(symbol_types, sym) {
                        Some(ti) => {
                            let v = counts[ti] + 1;
                            counts.set(ti, v);
                        },
                        None => {},
                    }
                },
                None => {},
            }
            proof {
                assert forall|ti: int| 0 <= ti < nt implies #[trigger] counts@[ti] == base[ti]
                    + row_type_count(symbol_types@, puzzle.cells@[r as int]@, ti, c + 1) by {
                    assert(before[ti] == base[ti] + row_type_count(
                        symbol_types@,
                        puzzle.cells@[r as int]@,
                        ti,
                        c as int,
                    ));
                }
            }
            c = c + 1;
        }
        proof {
            assert forall|ti: int| 0 <= ti < nt implies #[trigger] counts@[ti] <= (r + 1) * puzzle.width by {
                assert(base[ti] <= r * puzzle.width);
                assert(r * puzzle.width + puzzle.width == (r + 1) * puzzle.width) by (nonlinear_arith);
            }
        }
        r = r + 1;
    }
    counts
}

/// Number of regions = occurrences of each symbol type; 0 if counts differ.
pub fn rose_m(puzzle: &Puzzle, symbol_types: &[String]) -> (m: usize)
    requires
        puzzle.wf(),
    ensures
        m == spec_rose_m(*puzzle, symbol_types@),
{
    if symbol_types.len() == 0 {
        return 0;
    }
    let counts = count_types(puzzle, symbol_types);
    let first = counts[0];
    let mut i: usize = 0;
    while i < counts.len()
        invariant
            i <= counts@.len(),
            counts@.len() == symbol_types@.len(),
            first == counts@[0],
            forall|j: int| 0 <= j < i ==> #[trigger] counts@[j] == first,
            forall|ti: int|
                0 <= ti < counts@.len() ==> #[trigger] counts@[ti] == type_count(
                    symbol_types@,
                    *puzzle,
                    ti,
                    puzzle.height as int,
                ),
        decreases counts@.len() - i,
    {
        if counts[i] != first {
            proof {
                assert(type_count(symbol_types@, *puzzle, i as int, puzzle.height as int) != type_count(
                    symbol_types@,
                    *puzzle,
                    0,
                    puzzle.height as int,
                ));
            }
            return 0;
        }
        i = i + 1;
    }
    proof {
        assert forall|ti: int| 0 <= ti < symbol_types@.len() implies #[trigger] type_count(
            symbol_types@,
            *puzzle,
            ti,
            puzzle.height as int,
        ) == type_count(symbol_types@, *puzzle, 0, puzzle.height as int) by {
            assert(counts@[ti] == first);
        }
    }
    first
}

/// Map `cell index -> symbol-type index` for every cell whose symbol is one
/// of the types.
pub fn symbol_index_map(puzzle: &Puzzle, symbol_types: &[String]) -> (m: HashMap<usize, usize>)
    requires
        puzzle.wf(),
    ensures
        forall|r: int, c: int|
            0 <= r < puzzle.height && 0 <= c < puzzle.width ==> (m@.contains_key(
                (r * puzzle.width + c) as usize,
            ) <==> cell_type(symbol_types@, #[trigger] puzzle.cell(r, c)).is_some()),
        forall|r: int, c: int|
            0 <= r < puzzle.height && 0 <= c < puzzle.width && cell_type(
                symbol_types@,
                #[trigger] puzzle.cell(r, c),
            ).is_some() ==> m@[(r * puzzle.width + c) as usize] == cell_type(
                symbol_types@,
                puzzle.cell(r, c),
            ).unwrap(),
        forall|k: usize| #[trigger] m@.contains_key(k) ==> k < puzzle.height * puzzle.width,
{
    broadcast use vstd::std_specs::hash::group_hash_axioms;

    let w = puzzle.width;
    let mut map: HashMap<usize, usize> = HashMap::new();
    let mut r: usize = 0;
    while r < puzzle.height
        invariant
            puzzle.wf(),
            w == puzzle.width,
            r <= puzzle.height,
            forall|rr: int, cc: int|
                0 <= rr < r && 0 <= cc < w ==> (map@.contains_key((rr * w + cc) as usize)
                    <==> cell_type(symbol_types@, #[trigger] puzzle.cell(rr, cc)).is_some()),
            forall|rr: int, cc: int|
                0 <= rr < r && 0 <= cc < w && cell_type(symbol_types@, #[trigger] puzzle.cell(rr, cc)).is_some()
                    ==> map@[(rr * w + cc) as usize] == cell_type(symbol_types@, puzzle.cell(rr, cc)).unwrap(),
            forall|k: usize| #[trigger] map@.contains_key(k) ==> k < r * w,
        decreases puzzle.height - r,
    {
        let mut c: usize = 0;
        while c < w
            invariant
                puzzle.wf(),
                w == puzzle.width,
                r < puzzle.height,
                c <= w,
                forall|rr: int, cc: int|
                    (0 <= rr < r && 0 <= cc < w) || (rr == r && 0 <= cc < c) ==> (map@.contains_key(
                        (rr * w + cc) as usize,
                    ) <==> cell_type(symbol_types@, #[trigger] puzzle.cell(rr, cc)).is_some()),
                forall|rr: int, cc: int|
                    ((0 <= rr < r && 0 <= cc < w) || (rr == r && 0 <= cc < c)) && cell_type(
                        symbol_types@,
                        #[trigger] puzzle.cell(rr, cc),
                    ).is_some() ==> map@[(rr * w + cc) as usize] == cell_type(
                        symbol_types@,
                        puzzle.cell(rr, cc),
                    ).unwrap(),
                forall|k: usize| #[trigger] map@.contains_key(k) ==> k < r * w + c,
            decreases w - c,
        {
            proof {
                assert(r * w + c < puzzle.height * w) by (nonlinear_arith)
                    requires
                        r < puzzle.height,
                        c < w,
                ;
                assert(puzzle.height * w <= (puzzle.height + 1) * (w + 1)) by (nonlinear_arith);
            }
            let idx = r * w + c;
            let ghost before = map@;
            match &puzzle.cells[r][c].symbol {
                Some(sym) => {
                    match symbol_position(symbol_types, sym) {
                        Some(ti) => {
                            map.insert(idx, ti);
                        },
                        None => {},
                    }
                },
                None => {},
            }
            proof {
                assert(!before.contains_key(idx));
                if cell_type(symbol_types@, puzzle.cell(r as int, c as int)).is_some() {
                    assert(map@ == before.insert(idx, cell_type(symbol_types@, puzzle.cell(r as int, c as int)).unwrap() as usize));
                } else {
                    assert(map@ == before);
                }
                assert forall|rr: int, cc: int|
                    #![trigger puzzle.cell(rr, cc)]
                    (0 <= rr < r && 0 <= cc < w) || (rr == r && 0 <= cc < c + 1) implies (map@.contains_key(
                        (rr * w + cc) as usize,
                    ) <==> cell_type(symbol_types@, puzzle.cell(rr, cc)).is_some()) && (cell_type(
                        symbol_types@,
                        puzzle.cell(rr, cc),
                    ).is_some() ==> map@[(rr * w + cc) as usize] == cell_type(
                        symbol_types@,
                        puzzle.cell(rr, cc),
                    ).unwrap()) by {
                    if rr < r {
                        assert(rr * w + cc < r * w) by (nonlinear_arith)
                            requires
                                rr < r,
                                cc < w,
                                0 <= cc,
                        ;
                        assert(0 <= rr * w + cc) by (nonlinear_arith)
                            requires
                                0 <= rr,
                                0 <= cc,
                                0 <= w,
                        ;
                    }
                    if rr == r {
                        assert(0 <= rr * w) by (nonlinear_arith)
                            requires
                                0 <= rr,
                                0 <= w,
                        ;
                    }
                    assert(((rr * w + cc) as usize) as int == rr * w + cc);
                    if !(rr == r && cc == c) {
                        assert((rr * w + cc) as usize != idx);
                    }
                }
            }
            c = c + 1;
        }
        proof {
            assert(r * w + w == (r + 1) * w) by (nonlinear_arith);
        }
        r = r + 1;
    }
    proof {
        assert(r * w == puzzle.height * w);
    }
    map
}

} // verus!
