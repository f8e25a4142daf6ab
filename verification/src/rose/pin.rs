//! Pinned regions for `shape_pattern` cells: a pattern cell fixes the shape
//! of its whole region up to rotation and reflection, so the region is one of
//! the pattern's dihedral variants placed over the cell.  This module
//! enumerates those variants and placements and filters them by the
//! `rose_window` symbol rule.

use vstd::prelude::*;
use vstd::relations::{sorted_by, total_ordering};
use crate::edge_csp::grid::lemma_pos_bounds;
use crate::rose::cells::CellSet;
use crate::rose::{cell_type, symbol_position, type_position};
use crate::types::Puzzle;

verus! {

/// Point order: by row, then by column.
pub open spec fn ipoint_le(a: (isize, isize), b: (isize, isize)) -> bool {
    a.0 < b.0 || (a.0 == b.0 && a.1 <= b.1)
}

pub open spec fn ipoint_leq() -> spec_fn((isize, isize), (isize, isize)) -> bool {
    |a: (isize, isize), b: (isize, isize)| ipoint_le(a, b)
}

/// `n` quarter turns counter-clockwise: `(r, c)` goes to `(-c, r)`.
pub open spec fn turn_ccw(p: (int, int), n: nat) -> (int, int)
    decreases n,
{
    if n == 0 {
        p
    } else {
        let q = turn_ccw(p, (n - 1) as nat);
        (-q.1, q.0)
    }
}

/// A pattern point mirrored (column negated) when `refl`, then turned `rot`
/// times.
pub open spec fn dihedral_point(p: [usize; 2], rot: nat, refl: bool) -> (int, int) {
    turn_ccw(
        (
            p[0] as int,
            if refl {
                -(p[1] as int)
            } else {
                p[1] as int
            },
        ),
        rot,
    )
}

pub open spec fn min_fst(s: Seq<(int, int)>) -> int
    decreases s.len(),
{
    if s.len() == 0 {
        0
    } else if s.len() == 1 {
        s[0].0
    } else {
        let m = min_fst(s.drop_last());
        if s.last().0 < m {
            s.last().0
        } else {
            m
        }
    }
}

pub open spec fn min_snd(s: Seq<(int, int)>) -> int
    decreases s.len(),
{
    if s.len() == 0 {
        0
    } else if s.len() == 1 {
        s[0].1
    } else {
        let m = min_snd(s.drop_last());
        if s.last().1 < m {
            s.last().1
        } else {
            m
        }
    }
}

/// The transformed pattern points.
pub open spec fn raw_variant(pattern: Seq<[usize; 2]>, rot: nat, refl: bool) -> Seq<(int, int)> {
    pattern.map_values(|p: [usize; 2]| dihedral_point(p, rot, refl))
}

/// Variant `k` (`k / 2` quarter turns, mirrored when `k` is odd) shifted to
/// the origin and sorted.
pub open spec fn spec_variant(pattern: Seq<[usize; 2]>, k: nat) -> Seq<(isize, isize)> {
    let raw = raw_variant(pattern, k / 2, k % 2 == 1);
    raw.map_values(|p: (int, int)| ((p.0 - min_fst(raw)) as isize, (p.1 - min_snd(raw)) as isize)).sort_by(
        ipoint_leq(),
    )
}

/// The distinct variants among the first `k`, in order of first appearance.
pub open spec fn variants_upto(pattern: Seq<[usize; 2]>, k: nat) -> Seq<Seq<(isize, isize)>>
    decreases k,
{
    if k == 0 {
        Seq::empty()
    } else {
        let prev = variants_upto(pattern, (k - 1) as nat);
        let v = spec_variant(pattern, (k - 1) as nat);
        if prev.contains(v) {
            prev
        } else {
            prev.push(v)
        }
    }
}

/// Coordinates small enough that every transform and shift stays in range.
pub open spec fn small_pattern(pattern: Seq<[usize; 2]>) -> bool {
    forall|i: int|
        0 <= i < pattern.len() ==> (#[trigger] pattern[i])[0] <= isize::MAX / 4 && pattern[i][1]
            <= isize::MAX / 4
}

proof fn lemma_turn_bound(p: (int, int), n: nat, b: int)
    requires
        -b <= p.0 <= b,
        -b <= p.1 <= b,
    ensures
        -b <= turn_ccw(p, n).0 <= b,
        -b <= turn_ccw(p, n).1 <= b,
    decreases n,
{
    if n > 0 {
        lemma_turn_bound(p, (n - 1) as nat, b);
    }
}

proof fn lemma_min_bounds(s: Seq<(int, int)>, b: int)
    requires
        forall|i: int| 0 <= i < s.len() ==> -b <= (#[trigger] s[i]).0 <= b && -b <= s[i].1 <= b,
        b >= 0,
    ensures
        forall|i: int| 0 <= i < s.len() ==> min_fst(s) <= (#[trigger] s[i]).0 && min_snd(s) <= s[i].1,
        -b <= min_fst(s) <= b,
        -b <= min_snd(s) <= b,
    decreases s.len(),
{
    if s.len() > 1 {
        lemma_min_bounds(s.drop_last(), b);
        assert forall|i: int| 0 <= i < s.len() implies min_fst(s) <= (#[trigger] s[i]).0 && min_snd(s) <= s[i].1 by {
            if i < s.len() - 1 {
                assert(s.drop_last()[i] == s[i]);
            }
        }
    }
}

fn insert_point_sorted(out: &mut Vec<(isize, isize)>, x: (isize, isize))
    requires
        sorted_by(old(out)@, ipoint_leq()),
    ensures
        sorted_by(final(out)@, ipoint_leq()),
        final(out)@.to_multiset() == old(out)@.to_multiset().insert(x),
{
    let mut j: usize = 0;
    while j < out.len() && (out[j].0 < x.0 || (out[j].0 == x.0 && out[j].1 <= x.1))
        invariant
            j <= out@.len(),
            out@ == old(out)@,
            forall|k: int| 0 <= k < j ==> ipoint_le(#[trigger] out@[k], x),
        decreases out@.len() - j,
    {
        j = j + 1;
    }
    let ghost before = out@;
    out.insert(j, x);
    proof {
        vstd::seq_lib::to_multiset_insert(before, j as int, x);
        assert forall|a: int, b: int| 0 <= a < b < out@.len() implies #[trigger] ipoint_leq()(
            out@[a],
            out@[b],
        ) by {
            if b < j {
                assert(ipoint_leq()(before[a], before[b]));
            } else if a < j && b == j {
            } else if a < j && b > j {
                assert(ipoint_leq()(before[a], before[b - 1]));
            } else if a == j {
                assert(!ipoint_le(before[j as int], x));
                if b - 1 > j {
                    assert(ipoint_leq()(before[j as int], before[b - 1]));
                }
            } else {
                assert(ipoint_leq()(before[a - 1], before[b - 1]));
            }
        }
    }
}

proof fn lemma_sorted_is_sort_by(out: Seq<(isize, isize)>, s: Seq<(isize, isize)>)
    requires
        sorted_by(out, ipoint_leq()),
        out.to_multiset() == s.to_multiset(),
    ensures
        out == s.sort_by(ipoint_leq()),
{
    assert(total_ordering(ipoint_leq()));
    s.lemma_sort_by_ensures(ipoint_leq());
    vstd::seq_lib::lemma_sorted_unique(out, s.sort_by(ipoint_leq()), ipoint_leq());
}

/// Variant `k` of the pattern, shifted to the origin and sorted.
fn variant(pattern: &[[usize; 2]], k: usize) -> (out: Vec<(isize, isize)>)
    requires
        k < 8,
        small_pattern(pattern@),
    ensures
        out@ == spec_variant(pattern@, k as nat),
{
    let rot = k / 2;
    let refl = k % 2 == 1;
    let ghost raw = raw_variant(pattern@, rot as nat, refl);
    let mut t: Vec<(isize, isize)> = Vec::new();
    let mut i: usize = 0;
    while i < pattern.len()
        invariant
            small_pattern(pattern@),
            rot < 4,
            raw == raw_variant(pattern@, rot as nat, refl),
            i <= pattern@.len(),
            t@.len() == i,
            forall|j: int| 0 <= j < i ==> (#[trigger] t@[j]).0 == raw[j].0 && t@[j].1 == raw[j].1,
        decreases pattern@.len() - i,
    {
        let p = pattern[i];
        let mut rr: isize = p[0] as isize;
        let mut cc: isize = if refl {
            -(p[1] as isize)
        } else {
            p[1] as isize
        };
        let ghost start = (p[0] as int, if refl {
            -(p[1] as int)
        } else {
            p[1] as int
        });
        let mut n: usize = 0;
        while n < rot
            invariant
                n <= rot < 4,
                (rr as int, cc as int) == turn_ccw(start, n as nat),
                -(isize::MAX / 4) <= start.0 <= isize::MAX / 4,
                -(isize::MAX / 4) <= start.1 <= isize::MAX / 4,
            decreases rot - n,
        {
            proof {
                lemma_turn_bound(start, n as nat, isize::MAX / 4);
            }
            let (pr, pc) = (rr, cc);
            rr = -pc;
            cc = pr;
            n = n + 1;
        }
        t.push((rr, cc));
        i = i + 1;
    }
    proof {
        assert forall|j: int| 0 <= j < raw.len() implies -(isize::MAX / 4) <= (#[trigger] raw[j]).0 <= isize::MAX / 4 && -(isize::MAX / 4) <= raw[j].1 <= isize::MAX / 4 by {
            let p = pattern@[j];
            lemma_turn_bound((p[0] as int, if refl { -(p[1] as int) } else { p[1] as int }), rot as nat, isize::MAX / 4);
        }
        lemma_min_bounds(raw, isize::MAX / 4);
    }
    let mut out: Vec<(isize, isize)> = Vec::new();
    if t.len() == 0 {
        proof {
            let sh = raw.map_values(|p: (int, int)| ((p.0 - min_fst(raw)) as isize, (p.1 - min_snd(raw)) as isize));
            assert(sh =~= Seq::<(isize, isize)>::empty());
            lemma_sorted_is_sort_by(out@, sh);
        }
        return out;
    }
    let mut min_r = t[0].0;
    let mut min_c = t[0].1;
    let mut i: usize = 1;
    while i < t.len()
        invariant
            t@.len() == raw.len(),
            raw.len() > 0,
            forall|j: int| 0 <= j < t@.len() ==> (#[trigger] t@[j]).0 == raw[j].0 && t@[j].1 == raw[j].1,
            1 <= i <= t@.len(),
            min_r == min_fst(raw.take(i as int)),
            min_c == min_snd(raw.take(i as int)),
        decreases t@.len() - i,
    {
        proof {
            assert(raw.take(i + 1).drop_last() == raw.take(i as int));
        }
        if t[i].0 < min_r {
            min_r = t[i].0;
        }
        if t[i].1 < min_c {
            min_c = t[i].1;
        }
        i = i + 1;
    }
    proof {
        assert(raw.take(i as int) == raw);
    }
    let ghost sh = raw.map_values(|p: (int, int)| ((p.0 - min_fst(raw)) as isize, (p.1 - min_snd(raw)) as isize));
    proof {
        assert(sh.take(0) =~= Seq::<(isize, isize)>::empty());
        assert(out@ =~= Seq::<(isize, isize)>::empty());
    }
    let mut i: usize = 0;
    while i < t.len()
        invariant
            t@.len() == raw.len(),
            forall|j: int| 0 <= j < t@.len() ==> (#[trigger] t@[j]).0 == raw[j].0 && t@[j].1 == raw[j].1,
            forall|j: int| 0 <= j < raw.len() ==> -(isize::MAX / 4) <= (#[trigger] raw[j]).0 <= isize::MAX / 4 && -(isize::MAX / 4) <= raw[j].1 <= isize::MAX / 4,
            -(isize::MAX / 4) <= min_r <= isize::MAX / 4,
            -(isize::MAX / 4) <= min_c <= isize::MAX / 4,
            min_r == min_fst(raw),
            min_c == min_snd(raw),
            sh == raw.map_values(|p: (int, int)| ((p.0 - min_fst(raw)) as isize, (p.1 - min_snd(raw)) as isize)),
            i <= t@.len(),
            sorted_by(out@, ipoint_leq()),
            out@.to_multiset() == sh.take(i as int).to_multiset(),
        decreases t@.len() - i,
    {
        let q = (t[i].0 - min_r, t[i].1 - min_c);
        insert_point_sorted(&mut out, q);
        proof {
            assert(sh[i as int] == q);
            assert(sh.take(i + 1) == sh.take(i as int).push(q));
            vstd::seq_lib::to_multiset_build(sh.take(i as int), q);
        }
        i = i + 1;
    }
    proof {
        assert(sh.take(i as int) == sh);
        lemma_sorted_is_sort_by(out@, sh);
    }
    out
}

fn same_points(a: &Vec<(isize, isize)>, b: &Vec<(isize, isize)>) -> (r: bool)
    ensures
        r == (a@ == b@),
{
    if a.len() != b.len() {
        return false;
    }
    let mut i: usize = 0;
    while i < a.len()
        invariant
            a@.len() == b@.len(),
            i <= a@.len(),
            forall|k: int| 0 <= k < i ==> a@[k] == b@[k],
        decreases a@.len() - i,
    {
        if a[i].0 != b[i].0 || a[i].1 != b[i].1 {
            return false;
        }
        i = i + 1;
    }
    assert(a@ =~= b@);
    true
}

/// The distinct dihedral variants of a point pattern, each shifted to the
/// origin and sorted, in the order quarter turn 0..3, plain before mirrored.
pub fn dihedral_variants(pattern: &[[usize; 2]]) -> (out: Vec<Vec<(isize, isize)>>)
    requires
        small_pattern(pattern@),
    ensures
        out@.len() == variants_upto(pattern@, 8).len(),
        forall|i: int| 0 <= i < out@.len() ==> (#[trigger] out@[i])@ == variants_upto(pattern@, 8)[i],
{
    let mut out: Vec<Vec<(isize, isize)>> = Vec::new();
    let mut k: usize = 0;
    while k < 8
        invariant
            small_pattern(pattern@),
            k <= 8,
            out@.len() == variants_upto(pattern@, k as nat).len(),
            forall|i: int| 0 <= i < out@.len() ==> (#[trigger] out@[i])@ == variants_upto(pattern@, k as nat)[i],
        decreases 8 - k,
    {
        let v = variant(pattern, k);
        let mut seen = false;
        let mut j: usize = 0;
        while j < out.len()
            invariant
                j <= out@.len(),
                seen == exists|i: int| 0 <= i < j && (#[trigger] out@[i])@ == v@,
            decreases out@.len() - j,
        {
            if same_points(&out[j], &v) {
                seen = true;
            }
            j = j + 1;
        }
        let ghost prev = variants_upto(pattern@, k as nat);
        proof {
            if seen {
                let i = choose|i: int| 0 <= i < out@.len() && (#[trigger] out@[i])@ == v@;
                assert(prev[i] == v@);
            } else {
                assert forall|i: int| 0 <= i < prev.len() implies prev[i] != v@ by {
                    assert(out@[i]@ == prev[i]);
                }
            }
        }
        if !seen {
            out.push(v);
        }
        k = k + 1;
    }
    out
}

/// A pre-drawn boundary separates side neighbours `(r, c)` and `(nr, nc)`.
pub open spec fn spec_edge_is_boundary(p: Puzzle, r: int, c: int, nr: int, nc: int) -> bool {
    if r == nr {
        p.h_edges@[r]@[if c < nc {
            c
        } else {
            nc
        }].is_boundary
    } else {
        p.v_edges@[if r < nr {
            r
        } else {
            nr
        }]@[c].is_boundary
    }
}

/// `(r, c)` and `(nr, nc)` are side neighbours on the grid.
pub open spec fn neighbours_on_grid(p: Puzzle, r: int, c: int, nr: int, nc: int) -> bool {
    &&& 0 <= r < p.height && 0 <= c < p.width && 0 <= nr < p.height && 0 <= nc < p.width
    &&& (r == nr && (c + 1 == nc || nc + 1 == c)) || (c == nc && (r + 1 == nr || nr + 1 == r))
}

fn edge_is_boundary(puzzle: &Puzzle, r: usize, c: usize, nr: usize, nc: usize) -> (b: bool)
    requires
        puzzle.wf(),
        neighbours_on_grid(*puzzle, r as int, c as int, nr as int, nc as int),
    ensures
        b == spec_edge_is_boundary(*puzzle, r as int, c as int, nr as int, nc as int),
{
    if r == nr {
        puzzle.h_edges[r][if c < nc {
            c
        } else {
            nc
        }].is_boundary
    } else {
        puzzle.v_edges[if r < nr {
            r
        } else {
            nr
        }][c].is_boundary
    }
}

/// How many of the flat cell indices `cells` hold a symbol of type `t`.
pub open spec fn symbol_count(p: Puzzle, cells: Seq<usize>, w: int, types: Seq<String>, t: int) -> int
    decreases cells.len(),
{
    if cells.len() == 0 {
        0
    } else {
        let idx = cells.last() as int;
        symbol_count(p, cells.drop_last(), w, types, t) + if cell_type(types, p.cell(idx / w, idx % w))
            == Some(t) {
            1int
        } else {
            0int
        }
    }
}

proof fn lemma_symbol_count_bound(p: Puzzle, cells: Seq<usize>, w: int, types: Seq<String>, t: int)
    ensures
        0 <= symbol_count(p, cells, w, types, t) <= cells.len(),
    decreases cells.len(),
{
    if cells.len() > 0 {
        lemma_symbol_count_bound(p, cells.drop_last(), w, types, t);
    }
}

/// For each symbol type, how many of the cells (flat indices) hold it.
pub fn placement_symbol_counts(puzzle: &Puzzle, cells: &[usize], w: usize, symbol_types: &[String]) -> (counts: Vec<usize>)
    requires
        puzzle.wf(),
        w == puzzle.width,
        forall|i: int| 0 <= i < cells@.len() ==> (#[trigger] cells@[i]) < puzzle.height * puzzle.width,
    ensures
        counts@.len() == symbol_types@.len(),
        forall|t: int|
            0 <= t < counts@.len() ==> #[trigger] counts@[t] == symbol_count(
                *puzzle,
                cells@,
                w as int,
                symbol_types@,
                t,
            ),
{
    let mut counts: Vec<usize> = Vec::new();
    let mut t: usize = 0;
    while t < symbol_types.len()
        invariant
            t <= symbol_types@.len(),
            counts@.len() == t,
            forall|k: int| 0 <= k < t ==> #[trigger] counts@[k] == 0,
        decreases symbol_types@.len() - t,
    {
        counts.push(0);
        t = t + 1;
    }
    let mut i: usize = 0;
    while i < cells.len()
        invariant
            puzzle.wf(),
            w == puzzle.width,
            forall|j: int| 0 <= j < cells@.len() ==> (#[trigger] cells@[j]) < puzzle.height * puzzle.width,
            i <= cells@.len(),
            counts@.len() == symbol_types@.len(),
            forall|k: int|
                0 <= k < counts@.len() ==> #[trigger] counts@[k] == symbol_count(
                    *puzzle,
                    cells@.take(i as int),
                    w as int,
                    symbol_types@,
                    k,
                ),
        decreases cells@.len() - i,
    {
        let idx = cells[i];
        proof {
            assert(cells@.take(i + 1).drop_last() == cells@.take(i as int));
            lemma_pos_bounds(puzzle.height as int, puzzle.width as int, idx as int);
            assert forall|k: int| 0 <= k < counts@.len() implies symbol_count(*puzzle, cells@.take(i as int), w as int, symbol_types@, k) <= i by {
                lemma_symbol_count_bound(*puzzle, cells@.take(i as int), w as int, symbol_types@, k);
            }
        }
        if let Some(sym) = puzzle.cells[idx / w][idx % w].symbol.as_ref() {
            if let Some(ti) = symbol_position(symbol_types, sym) {
                counts.set(ti, counts[ti] + 1);
            }
        }
        i = i + 1;
    }
    proof {
        assert(cells@.take(i as int) == cells@);
    }
    counts
}

/// Both sets have the same number of members and every member of `a` is in
/// `b`.
pub fn same_set(a: &CellSet, b: &CellSet) -> (r: bool)
    requires
        a.wf(),
        b.wf(),
        a.nbits() == b.nbits(),
    ensures
        r == (a.elems().len() == b.elems().len() && forall|i: int| #[trigger] a.has(i) ==> b.has(i)),
{
    if a.len() != b.len() {
        return false;
    }
    let items = a.iter();
    proof {
        a.lemma_elems(a.nbits() as int);
        a.lemma_wf_bits();
    }
    let mut k: usize = 0;
    while k < items.len()
        invariant
            a.wf(),
            b.wf(),
            a.nbits() == b.nbits(),
            items@ == a.elems(),
            k <= items@.len(),
            forall|j: int| 0 <= j < items@.len() ==> a.has(#[trigger] items@[j] as int) && items@[j] < a.nbits(),
            forall|x: int| 0 <= x < a.nbits() ==> (a.has(x) <==> items@.contains(x as usize)),
            forall|j: int| 0 <= j < k ==> b.has(#[trigger] items@[j] as int),
        decreases items@.len() - k,
    {
        if !b.contains(items[k]) {
            return false;
        }
        k = k + 1;
    }
    proof {
        assert forall|i: int| #[trigger] a.has(i) implies b.has(i) by {
            a.lemma_has_range(i);
            let j = choose|j: int| 0 <= j < items@.len() && items@[j] == i as usize;
            assert(b.has(items@[j] as int));
        }
    }
    true
}

/// Lexicographic strict order on index lists (a proper prefix is smaller).
pub open spec fn lex_lt(a: Seq<usize>, b: Seq<usize>) -> bool
    decreases a.len(),
{
    if a.len() == 0 {
        b.len() > 0
    } else if b.len() == 0 {
        false
    } else if a[0] != b[0] {
        a[0] < b[0]
    } else {
        lex_lt(a.drop_first(), b.drop_first())
    }
}

pub proof fn lemma_lex_irrefl(a: Seq<usize>)
    ensures
        !lex_lt(a, a),
    decreases a.len(),
{
    if a.len() > 0 {
        lemma_lex_irrefl(a.drop_first());
    }
}

pub proof fn lemma_lex_trans(a: Seq<usize>, b: Seq<usize>, c: Seq<usize>)
    requires
        lex_lt(a, b),
        lex_lt(b, c),
    ensures
        lex_lt(a, c),
    decreases a.len(),
{
    if a.len() > 0 && b.len() > 0 && c.len() > 0 && a[0] == b[0] && b[0] == c[0] {
        lemma_lex_trans(a.drop_first(), b.drop_first(), c.drop_first());
    }
}

pub proof fn lemma_lex_total(a: Seq<usize>, b: Seq<usize>)
    requires
        a != b,
    ensures
        lex_lt(a, b) || lex_lt(b, a),
    decreases a.len(),
{
    if a.len() > 0 && b.len() > 0 && a[0] == b[0] {
        if a.drop_first() == b.drop_first() {
            assert(a =~= seq![a[0]] + a.drop_first());
            assert(b =~= seq![b[0]] + b.drop_first());
        }
        lemma_lex_total(a.drop_first(), b.drop_first());
    } else if a.len() == 0 && b.len() == 0 {
        assert(a =~= b);
    }
}

fn lex_less(a: &Vec<usize>, b: &Vec<usize>) -> (r: bool)
    ensures
        r == lex_lt(a@, b@),
{
    let mut i: usize = 0;
    proof {
        assert(a@.skip(0) == a@);
        assert(b@.skip(0) == b@);
    }
    while i < a.len() && i < b.len() && a[i] == b[i]
        invariant
            i <= a@.len(),
            i <= b@.len(),
            lex_lt(a@, b@) == lex_lt(a@.skip(i as int), b@.skip(i as int)),
        decreases a@.len() - i,
    {
        proof {
            assert(a@.skip(i as int).drop_first() == a@.skip(i + 1));
            assert(b@.skip(i as int).drop_first() == b@.skip(i + 1));
        }
        i = i + 1;
    }
    if i == a.len() {
        i < b.len()
    } else if i == b.len() {
        false
    } else {
        a[i] < b[i]
    }
}

fn same_indices(a: &Vec<usize>, b: &Vec<usize>) -> (r: bool)
    ensures
        r == (a@ == b@),
{
    if a.len() != b.len() {
        return false;
    }
    let mut i: usize = 0;
    while i < a.len()
        invariant
            a@.len() == b@.len(),
            i <= a@.len(),
            forall|k: int| 0 <= k < i ==> a@[k] == b@[k],
        decreases a@.len() - i,
    {
        if a[i] != b[i] {
            return false;
        }
        i = i + 1;
    }
    assert(a@ =~= b@);
    true
}

/// Strictly increasing in `lex_lt`.
pub open spec fn lex_sorted(v: Seq<Vec<usize>>) -> bool {
    forall|i: int, j: int| 0 <= i < j < v.len() ==> lex_lt(#[trigger] v[i]@, #[trigger] v[j]@)
}

/// Some entry of `v` is `x`.
pub open spec fn holds_list(v: Seq<Vec<usize>>, x: Seq<usize>) -> bool {
    exists|i: int| 0 <= i < v.len() && (#[trigger] v[i])@ == x
}

/// Insert `x` into the strictly increasing list `out` unless present.
fn insert_sorted_dedup(out: &mut Vec<Vec<usize>>, x: Vec<usize>)
    requires
        lex_sorted(old(out)@),
    ensures
        lex_sorted(final(out)@),
        forall|y: Seq<usize>| #[trigger] holds_list(final(out)@, y) <==> (holds_list(old(out)@, y) || y == x@),
{
    let mut i: usize = 0;
    while i < out.len() && lex_less(&out[i], &x)
        invariant
            i <= out@.len(),
            *out == *old(out),
            forall|k: int| 0 <= k < i ==> lex_lt((#[trigger] out@[k])@, x@),
        decreases out@.len() - i,
    {
        i = i + 1;
    }
    if i < out.len() && same_indices(&out[i], &x) {
        proof {
            assert forall|y: Seq<usize>| #[trigger] holds_list(out@, y) <==> (holds_list(old(out)@, y) || y == x@) by {
                if y == x@ {
                    assert(out@[i as int]@ == y);
                }
            }
        }
        return;
    }
    let ghost before = out@;
    let ghost xv = x@;
    proof {
        if i < before.len() {
            lemma_lex_total(before[i as int]@, xv);
        }
    }
    out.insert(i, x);
    proof {
        let o = out@;
        assert(o == before.insert(i as int, o[i as int]));
        assert forall|a: int, b: int| 0 <= a < b < o.len() implies lex_lt(#[trigger] o[a]@, #[trigger] o[b]@) by {
            if b < i {
                assert(o[a] == before[a] && o[b] == before[b]);
            } else if a < i && b == i {
            } else if a < i && b > i {
                assert(o[b] == before[b - 1]);
                assert(lex_lt(before[a]@, xv));
                if b - 1 > i {
                    assert(lex_lt(before[i as int]@, before[b - 1]@));
                    lemma_lex_trans(xv, before[i as int]@, before[b - 1]@);
                }
                lemma_lex_trans(before[a]@, xv, before[b - 1]@);
            } else if a == i {
                assert(o[b] == before[b - 1]);
                if b - 1 > i {
                    assert(lex_lt(before[i as int]@, before[b - 1]@));
                    lemma_lex_trans(xv, before[i as int]@, before[b - 1]@);
                }
            } else {
                assert(o[a] == before[a - 1] && o[b] == before[b - 1]);
            }
        }
        assert forall|y: Seq<usize>| #[trigger] holds_list(o, y) <==> (holds_list(before, y) || y == xv) by {
            if holds_list(before, y) {
                let q = choose|q: int| 0 <= q < before.len() && (#[trigger] before[q])@ == y;
                if q < i {
                    assert(o[q] == before[q]);
                } else {
                    assert(o[q + 1] == before[q]);
                }
            }
            if y == xv {
                assert(o[i as int]@ == xv);
            }
            if holds_list(o, y) {
                let q = choose|q: int| 0 <= q < o.len() && (#[trigger] o[q])@ == y;
                if q < i {
                    assert(before[q] == o[q]);
                } else if q > i {
                    assert(before[q - 1] == o[q]);
                }
            }
        }
    }
}

pub open spec fn usize_le(a: usize, b: usize) -> bool {
    a <= b
}

pub open spec fn usize_leq() -> spec_fn(usize, usize) -> bool {
    |a: usize, b: usize| usize_le(a, b)
}

pub proof fn lemma_usize_leq_total()
    ensures
        total_ordering(usize_leq()),
{
}

/// An ascending listing of a multiset of indices is unique.
pub proof fn lemma_sorted_cells_unique(x: Seq<usize>, y: Seq<usize>, cells: Seq<usize>)
    requires
        sorted_cells_of(x, cells),
        sorted_cells_of(y, cells),
    ensures
        x == y,
{
    lemma_usize_leq_total();
    vstd::seq_lib::lemma_sorted_unique(x, y, usize_leq());
}

/// `v` sorted ascending.
pub(crate) fn sort_indices(v: &Vec<usize>) -> (out: Vec<usize>)
    ensures
        sorted_by(out@, usize_leq()),
        out@.to_multiset() == v@.to_multiset(),
{
    let mut out: Vec<usize> = Vec::new();
    let mut i: usize = 0;
    proof {
        assert(v@.take(0) =~= Seq::<usize>::empty());
        assert(out@ =~= Seq::<usize>::empty());
    }
    while i < v.len()
        invariant
            i <= v@.len(),
            sorted_by(out@, usize_leq()),
            out@.to_multiset() == v@.take(i as int).to_multiset(),
        decreases v@.len() - i,
    {
        let x = v[i];
        let mut j: usize = 0;
        while j < out.len() && out[j] <= x
            invariant
                j <= out@.len(),
                forall|k: int| 0 <= k < j ==> (#[trigger] out@[k]) <= x,
            decreases out@.len() - j,
        {
            j = j + 1;
        }
        let ghost before = out@;
        out.insert(j, x);
        proof {
            vstd::seq_lib::to_multiset_insert(before, j as int, x);
            assert forall|a: int, b: int| 0 <= a < b < out@.len() implies #[trigger] usize_leq()(out@[a], out@[b]) by {
                if b < j {
                    assert(usize_leq()(before[a], before[b]));
                } else if a < j && b == j {
                } else if a < j && b > j {
                    assert(usize_leq()(before[a], before[b - 1]));
                } else if a == j {
                    assert(!(before[j as int] <= x));
                    if b - 1 > j {
                        assert(usize_leq()(before[j as int], before[b - 1]));
                    }
                } else {
                    assert(usize_leq()(before[a - 1], before[b - 1]));
                }
            }
            assert(v@.take(i + 1) == v@.take(i as int).push(x));
            vstd::seq_lib::to_multiset_build(v@.take(i as int), x);
        }
        i = i + 1;
    }
    proof {
        assert(v@.take(i as int) == v@);
    }
    out
}


/// Row and column on which variant point `j` lands when variant point `k` is
/// put on the anchor `(ar, ac)`.
pub open spec fn placed_at(variant: Seq<(isize, isize)>, ar: int, ac: int, k: int, j: int) -> (int, int) {
    (ar - variant[k].0 + variant[j].0, ac - variant[k].1 + variant[j].1)
}

/// Every placed cell is on the grid and not blocked.
pub open spec fn placement_fits(p: Puzzle, variant: Seq<(isize, isize)>, ar: int, ac: int, k: int) -> bool {
    forall|j: int|
        0 <= j < variant.len() ==> {
            let q = #[trigger] placed_at(variant, ar, ac, k, j);
            0 <= q.0 < p.height && 0 <= q.1 < p.width && !p.cell(q.0, q.1).blocked
        }
}

/// No pre-drawn boundary separates two side-adjacent placed cells.
pub open spec fn placement_unwalled(p: Puzzle, variant: Seq<(isize, isize)>, ar: int, ac: int, k: int) -> bool {
    forall|i: int, j: int|
        0 <= i < variant.len() && 0 <= j < variant.len() && neighbours_on_grid(
            p,
            (#[trigger] placed_at(variant, ar, ac, k, i)).0,
            placed_at(variant, ar, ac, k, i).1,
            (#[trigger] placed_at(variant, ar, ac, k, j)).0,
            placed_at(variant, ar, ac, k, j).1,
        ) ==> !spec_edge_is_boundary(
            p,
            placed_at(variant, ar, ac, k, i).0,
            placed_at(variant, ar, ac, k, i).1,
            placed_at(variant, ar, ac, k, j).0,
            placed_at(variant, ar, ac, k, j).1,
        )
}

pub open spec fn placement_legal(p: Puzzle, variant: Seq<(isize, isize)>, ar: int, ac: int, k: int) -> bool {
    placement_fits(p, variant, ar, ac, k) && placement_unwalled(p, variant, ar, ac, k)
}

/// The flat (row-major) indices of the placed cells, in variant order.
pub open spec fn placement_cells(p: Puzzle, variant: Seq<(isize, isize)>, ar: int, ac: int, k: int) -> Seq<usize> {
    Seq::new(
        variant.len(),
        |j: int|
            {
                let q = placed_at(variant, ar, ac, k, j);
                (q.0 * p.width + q.1) as usize
            },
    )
}

/// `y` lists the same indices as `cells`, ascending.
pub open spec fn sorted_cells_of(y: Seq<usize>, cells: Seq<usize>) -> bool {
    sorted_by(y, usize_leq()) && y.to_multiset() == cells.to_multiset()
}

/// Putting variant point `k` on the anchor is legal and `y` is its cell list,
/// ascending.
pub open spec fn listed_placement(p: Puzzle, variant: Seq<(isize, isize)>, ar: int, ac: int, k: int, y: Seq<usize>) -> bool {
    0 <= k < variant.len() && placement_legal(p, variant, ar, ac, k) && sorted_cells_of(
        y,
        placement_cells(p, variant, ar, ac, k),
    )
}

proof fn lemma_wf_dims(p: Puzzle)
    requires
        p.wf(),
    ensures
        p.height * p.width < usize::MAX,
        p.width < usize::MAX,
        p.height < usize::MAX,
{
    let h = p.height as int;
    let w = p.width as int;
    assert(h * w < (h + 1) * (w + 1) && w < (h + 1) * (w + 1) && h < (h + 1) * (w + 1)) by (nonlinear_arith)
        requires
            h >= 0,
            w >= 0,
    ;
}

/// The cells covered when variant point `k` is put on the anchor, or `None`
/// when that placement leaves the grid, covers a blocked cell or straddles a
/// pre-drawn boundary.
fn place_variant(puzzle: &Puzzle, variant: &Vec<(isize, isize)>, ar: usize, ac: usize, k: usize) -> (res: Option<Vec<usize>>)
    requires
        puzzle.wf(),
        k < variant@.len(),
    ensures
        match res {
            Some(cells) => placement_legal(*puzzle, variant@, ar as int, ac as int, k as int) && cells@
                == placement_cells(*puzzle, variant@, ar as int, ac as int, k as int),
            None => !placement_legal(*puzzle, variant@, ar as int, ac as int, k as int),
        },
{
    let h = puzzle.height;
    let w = puzzle.width;
    let ghost v = variant@;
    let ghost pz = *puzzle;
    proof {
        lemma_wf_dims(*puzzle);
    }
    let orr: i128 = ar as i128 - variant[k].0 as i128;
    let occ: i128 = ac as i128 - variant[k].1 as i128;
    let mut rows: Vec<usize> = Vec::new();
    let mut cols: Vec<usize> = Vec::new();
    let mut cells: Vec<usize> = Vec::new();
    let mut j: usize = 0;
    while j < variant.len()
        invariant
            pz == *puzzle,
            puzzle.wf(),
            h == puzzle.height,
            w == puzzle.width,
            v == variant@,
            k < v.len(),
            orr == ar - v[k as int].0,
            occ == ac - v[k as int].1,
            h * w < usize::MAX,
            j <= v.len(),
            rows@.len() == j,
            cols@.len() == j,
            cells@.len() == j,
            forall|i: int|
                0 <= i < j ==> (#[trigger] rows@[i]) == placed_at(v, ar as int, ac as int, k as int, i).0
                    && cols@[i] == placed_at(v, ar as int, ac as int, k as int, i).1 && rows@[i] < h
                    && cols@[i] < w && !pz.cell(rows@[i] as int, cols@[i] as int).blocked && cells@[i]
                    == rows@[i] * w + cols@[i],
        decreases v.len() - j,
    {
        let r: i128 = orr + variant[j].0 as i128;
        let c: i128 = occ + variant[j].1 as i128;
        if r < 0 || c < 0 || r >= h as i128 || c >= w as i128 {
            proof {
                assert(placed_at(v, ar as int, ac as int, k as int, j as int) == (r as int, c as int));
            }
            return None;
        }
        let ru = r as usize;
        let cu = c as usize;
        if puzzle.cells[ru][cu].blocked {
            proof {
                assert(placed_at(v, ar as int, ac as int, k as int, j as int) == (r as int, c as int));
            }
            return None;
        }
        proof {
            crate::edge_csp::grid::lemma_cell_id_bound(h as int, w as int, ru as int, cu as int);
        }
        rows.push(ru);
        cols.push(cu);
        cells.push(ru * w + cu);
        j = j + 1;
    }
    assert(placement_fits(pz, v, ar as int, ac as int, k as int)) by {
        assert forall|j: int| 0 <= j < v.len() implies {
            let q = #[trigger] placed_at(v, ar as int, ac as int, k as int, j);
            0 <= q.0 < pz.height && 0 <= q.1 < pz.width && !pz.cell(q.0, q.1).blocked
        } by {
            assert(rows@[j] == placed_at(v, ar as int, ac as int, k as int, j).0);
        }
    }
    assert(cells@ == placement_cells(pz, v, ar as int, ac as int, k as int)) by {
        assert forall|i: int| 0 <= i < v.len() implies cells@[i] == placement_cells(pz, v, ar as int, ac as int, k as int)[i] by {
            assert(rows@[i] == placed_at(v, ar as int, ac as int, k as int, i).0);
        }
    }
    let mut a: usize = 0;
    while a < variant.len()
        invariant
            pz == *puzzle,
            puzzle.wf(),
            h == puzzle.height,
            w == puzzle.width,
            v == variant@,
            k < v.len(),
            a <= v.len(),
            rows@.len() == v.len(),
            cols@.len() == v.len(),
            h < usize::MAX,
            w < usize::MAX,
            forall|i: int|
                0 <= i < v.len() ==> (#[trigger] rows@[i]) == placed_at(v, ar as int, ac as int, k as int, i).0
                    && cols@[i] == placed_at(v, ar as int, ac as int, k as int, i).1 && rows@[i] < h
                    && cols@[i] < w,
            forall|i: int, j: int|
                0 <= i < a && 0 <= j < v.len() && neighbours_on_grid(
                    pz,
                    (#[trigger] placed_at(v, ar as int, ac as int, k as int, i)).0,
                    placed_at(v, ar as int, ac as int, k as int, i).1,
                    (#[trigger] placed_at(v, ar as int, ac as int, k as int, j)).0,
                    placed_at(v, ar as int, ac as int, k as int, j).1,
                ) ==> !spec_edge_is_boundary(
                    pz,
                    placed_at(v, ar as int, ac as int, k as int, i).0,
                    placed_at(v, ar as int, ac as int, k as int, i).1,
                    placed_at(v, ar as int, ac as int, k as int, j).0,
                    placed_at(v, ar as int, ac as int, k as int, j).1,
                ),
        decreases v.len() - a,
    {
        let mut b: usize = 0;
        while b < variant.len()
            invariant
                pz == *puzzle,
                puzzle.wf(),
                h == puzzle.height,
                w == puzzle.width,
                v == variant@,
                k < v.len(),
                a < v.len(),
                b <= v.len(),
                rows@.len() == v.len(),
                cols@.len() == v.len(),
                h < usize::MAX,
                w < usize::MAX,
                forall|i: int|
                    0 <= i < v.len() ==> (#[trigger] rows@[i]) == placed_at(v, ar as int, ac as int, k as int, i).0
                        && cols@[i] == placed_at(v, ar as int, ac as int, k as int, i).1 && rows@[i] < h
                        && cols@[i] < w,
                forall|j: int|
                    0 <= j < b && neighbours_on_grid(
                        pz,
                        placed_at(v, ar as int, ac as int, k as int, a as int).0,
                        placed_at(v, ar as int, ac as int, k as int, a as int).1,
                        (#[trigger] placed_at(v, ar as int, ac as int, k as int, j)).0,
                        placed_at(v, ar as int, ac as int, k as int, j).1,
                    ) ==> !spec_edge_is_boundary(
                        pz,
                        placed_at(v, ar as int, ac as int, k as int, a as int).0,
                        placed_at(v, ar as int, ac as int, k as int, a as int).1,
                        placed_at(v, ar as int, ac as int, k as int, j).0,
                        placed_at(v, ar as int, ac as int, k as int, j).1,
                    ),
            decreases v.len() - b,
        {
            let (ra, ca) = (rows[a], cols[a]);
            let (rb, cb) = (rows[b], cols[b]);
            proof {
                assert(rows@[a as int] == placed_at(v, ar as int, ac as int, k as int, a as int).0);
                assert(rows@[b as int] == placed_at(v, ar as int, ac as int, k as int, b as int).0);
            }
            let adjacent = (ra == rb && (ca + 1 == cb || cb + 1 == ca)) || (ca == cb && (ra + 1 == rb || rb
                + 1 == ra));
            if adjacent && edge_is_boundary(puzzle, ra, ca, rb, cb) {
                return None;
            }
            b = b + 1;
        }
        a = a + 1;
    }
    Some(cells)
}


/// The distinct legal placements of `variant` over the anchor `(ar, ac)`:
/// each variant point in turn is put on the anchor, and every placement that
/// stays on the grid, avoids blocked cells and crosses no pre-drawn boundary
/// is listed once, as its ascending cell indices; the list is in
/// lexicographic order.
pub fn placements_for_variant(puzzle: &Puzzle, variant: &Vec<(isize, isize)>, ar: usize, ac: usize) -> (out: Vec<
    Vec<usize>,
>)
    requires
        puzzle.wf(),
    ensures
        lex_sorted(out@),
        forall|y: Seq<usize>|
            #[trigger] holds_list(out@, y) <==> exists|k: int|
                #[trigger] listed_placement(*puzzle, variant@, ar as int, ac as int, k, y),
{
    let mut out: Vec<Vec<usize>> = Vec::new();
    let mut k: usize = 0;
    while k < variant.len()
        invariant
            puzzle.wf(),
            k <= variant@.len(),
            lex_sorted(out@),
            forall|y: Seq<usize>|
                #[trigger] holds_list(out@, y) <==> exists|q: int|
                    0 <= q < k && #[trigger] listed_placement(*puzzle, variant@, ar as int, ac as int, q, y),
        decreases variant@.len() - k,
    {
        let ghost before = out@;
        match place_variant(puzzle, variant, ar, ac, k) {
            Some(cells) => {
                let sorted = sort_indices(&cells);
                let ghost sv = sorted@;
                insert_sorted_dedup(&mut out, sorted);
                proof {
                    assert(listed_placement(*puzzle, variant@, ar as int, ac as int, k as int, sv));
                    assert forall|y: Seq<usize>| #[trigger] holds_list(out@, y) <==> exists|q: int|
                        0 <= q < k + 1 && #[trigger] listed_placement(*puzzle, variant@, ar as int, ac as int, q, y) by {
                        if exists|q: int| 0 <= q < k + 1 && #[trigger] listed_placement(*puzzle, variant@, ar as int, ac as int, q, y) {
                            let q = choose|q: int| 0 <= q < k + 1 && #[trigger] listed_placement(*puzzle, variant@, ar as int, ac as int, q, y);
                            if q == k {
                                lemma_sorted_cells_unique(y, sv, cells@);
                            }
                        }
                    }
                }
            },
            None => {
                proof {
                    assert forall|y: Seq<usize>| #[trigger] holds_list(out@, y) <==> exists|q: int|
                        0 <= q < k + 1 && #[trigger] listed_placement(*puzzle, variant@, ar as int, ac as int, q, y) by {
                        if exists|q: int| 0 <= q < k + 1 && #[trigger] listed_placement(*puzzle, variant@, ar as int, ac as int, q, y) {
                            let q = choose|q: int| 0 <= q < k + 1 && #[trigger] listed_placement(*puzzle, variant@, ar as int, ac as int, q, y);
                            assert(q != k);
                        }
                    }
                }
            },
        }
        k = k + 1;
    }
    out
}


/// The indices below `k` that occur in `y`, ascending and each once.
pub open spec fn listing(y: Seq<usize>, k: int) -> Seq<usize>
    decreases k,
{
    if k <= 0 {
        Seq::empty()
    } else if y.contains((k - 1) as usize) {
        listing(y, k - 1).push((k - 1) as usize)
    } else {
        listing(y, k - 1)
    }
}

pub proof fn lemma_listing_contains(y: Seq<usize>, k: int)
    requires
        0 <= k <= usize::MAX + 1,
    ensures
        forall|x: usize| x < k ==> (listing(y, k).contains(x) <==> #[trigger] y.contains(x)),
        forall|j: int| 0 <= j < listing(y, k).len() ==> (#[trigger] listing(y, k)[j]) < k,
    decreases k,
{
    if k > 0 {
        lemma_listing_contains(y, k - 1);
        let prev = listing(y, k - 1);
        let cur = listing(y, k);
        assert forall|x: usize| x < k implies (cur.contains(x) <==> #[trigger] y.contains(x)) by {
            if cur.contains(x) {
                let j = choose|j: int| 0 <= j < cur.len() && cur[j] == x;
                if j < prev.len() {
                    assert(prev[j] == x);
                }
            }
            if x < k - 1 && prev.contains(x) {
                let j = choose|j: int| 0 <= j < prev.len() && prev[j] == x;
                assert(cur[j] == x);
            }
            if x == k - 1 && y.contains(x) {
                assert(cur[prev.len() as int] == x);
            }
        }
    }
}

pub proof fn lemma_listing_ext(y1: Seq<usize>, y2: Seq<usize>, k: int)
    requires
        forall|x: usize| x < k ==> (#[trigger] y1.contains(x) <==> y2.contains(x)),
    ensures
        listing(y1, k) == listing(y2, k),
    decreases k,
{
    if k > 0 {
        lemma_listing_ext(y1, y2, k - 1);
        assert(y1.contains((k - 1) as usize) <==> y2.contains((k - 1) as usize));
    }
}

/// A canonical listing lists itself.
pub proof fn lemma_listing_idem(y: Seq<usize>, k: int)
    requires
        0 <= k <= usize::MAX + 1,
    ensures
        listing(listing(y, k), k) == listing(y, k),
{
    lemma_listing_contains(y, k);
    lemma_listing_ext(listing(y, k), y, k);
}

/// The members of a set below `k`, ascending, are the listing of any index
/// list with the same members below `k`.
pub proof fn lemma_elems_listing(s: CellSet, y: Seq<usize>, k: int)
    requires
        0 <= k <= usize::MAX + 1,
        forall|x: usize| x < k ==> (s.has(x as int) <==> #[trigger] y.contains(x)),
    ensures
        s.elems_upto(k) == listing(y, k),
    decreases k,
{
    if k > 0 {
        lemma_elems_listing(s, y, k - 1);
        assert(s.has(k - 1) <==> y.contains((k - 1) as usize));
        assert(((k - 1) as usize) as int == k - 1);
    }
}

/// The set of the indices in `y` on a board of `n` cells.
fn cellset_of(n: usize, y: &Vec<usize>) -> (s: CellSet)
    requires
        n <= usize::MAX - 63,
        forall|i: int| 0 <= i < y@.len() ==> (#[trigger] y@[i]) < n,
    ensures
        s.wf(),
        s.nbits() == CellSet::bits_for(n as nat),
        forall|x: usize| #[trigger] s.has(x as int) <==> y@.contains(x),
{
    let mut s = CellSet::new(n);
    let mut i: usize = 0;
    while i < y.len()
        invariant
            n <= usize::MAX - 63,
            forall|j: int| 0 <= j < y@.len() ==> (#[trigger] y@[j]) < n,
            s.wf(),
            n <= s.nbits(),
            s.nbits() == CellSet::bits_for(n as nat),
            i <= y@.len(),
            forall|x: int| #[trigger] s.has(x) <==> (exists|j: int| 0 <= j < i && y@[j] == x),
        decreases y@.len() - i,
    {
        s.insert(y[i]);
        proof {
            assert forall|x: int| #[trigger] s.has(x) <==> (exists|j: int| 0 <= j < i + 1 && y@[j] == x) by {
                if x == y@[i as int] {
                    assert(y@[i as int] == x);
                }
            }
        }
        i = i + 1;
    }
    proof {
        assert forall|x: usize| #[trigger] s.has(x as int) <==> y@.contains(x) by {
            if y@.contains(x) {
                let j = choose|j: int| 0 <= j < y@.len() && y@[j] == x;
                assert(y@[j] == x as int);
            }
        }
    }
    s
}


/// One viable placement of a pattern cell's pinned region.
pub struct PinnedPlacement {
    /// The flat index of the pattern cell this placement satisfies.
    pub anchor: usize,
    /// The cells of the pinned region.
    pub cells: CellSet,
}

/// All placements for one pattern cell, each once.
pub struct AnchorCandidates {
    pub anchor: usize,
    pub placements: Vec<PinnedPlacement>,
}

/// The size of the cell sets on a board of this puzzle.
pub open spec fn board_bits(p: Puzzle) -> int {
    CellSet::bits_for((p.height * p.width) as nat) as int
}

/// Every index lies on the board.
pub open spec fn on_board(p: Puzzle, y: Seq<usize>) -> bool {
    forall|i: int| 0 <= i < y.len() ==> (#[trigger] y[i]) < p.height * p.width
}

/// The shape pattern of cell `(r, c)`.
pub open spec fn pattern_at(p: Puzzle, r: int, c: int) -> Seq<[usize; 2]> {
    p.cell(r, c).shape_pattern.unwrap()@
}

/// `y` is a legal placement over `(r, c)` of the pattern's variant `vi`,
/// with variant point `k` on `(r, c)`.
pub open spec fn from_variant(p: Puzzle, r: int, c: int, vi: int, k: int, y: Seq<usize>) -> bool {
    let vs = variants_upto(pattern_at(p, r, c), 8);
    0 <= vi < vs.len() && listed_placement(p, vs[vi], r, c, k, y)
}

/// With symbol types given, the cells hold exactly one symbol of each type.
pub open spec fn one_of_each_symbol(p: Puzzle, types: Seq<String>, y: Seq<usize>) -> bool {
    types.len() > 0 ==> forall|t: int|
        0 <= t < types.len() ==> #[trigger] symbol_count(p, y, p.width as int, types, t) == 1
}

/// The flat index of the `i`-th cell of a run.
pub open spec fn run_cell(run: Seq<(usize, usize)>, w: int, i: int) -> usize {
    (run[i].0 * w + run[i].1) as usize
}

/// A run lies wholly inside the cells or wholly outside them.
pub open spec fn run_respected(run: Seq<(usize, usize)>, w: int, y: Seq<usize>) -> bool {
    (exists|i: int| 0 <= i < run.len() && y.contains(#[trigger] run_cell(run, w, i))) ==> (forall|i: int|
        0 <= i < run.len() ==> y.contains(#[trigger] run_cell(run, w, i)))
}

pub open spec fn runs_respected(runs: Seq<Vec<(usize, usize)>>, w: int, y: Seq<usize>) -> bool {
    forall|i: int| 0 <= i < runs.len() ==> run_respected(#[trigger] runs[i]@, w, y)
}

/// Every run cell is on the grid.
pub open spec fn runs_in_grid(p: Puzzle, runs: Seq<Vec<(usize, usize)>>) -> bool {
    forall|i: int, j: int|
        0 <= i < runs.len() && 0 <= j < runs[i]@.len() ==> (#[trigger] runs[i]@[j]).0 < p.height && runs[i]@[j].1
            < p.width
}

pub open spec fn filters_ok(p: Puzzle, types: Seq<String>, runs: Seq<Vec<(usize, usize)>>, y: Seq<usize>) -> bool {
    one_of_each_symbol(p, types, y) && runs_respected(runs, p.width as int, y)
}

/// `y` is the ascending cell list of a viable pinned region for the pattern
/// cell `(r, c)`: a legal placement of one of the pattern's variants that
/// passes the symbol and run filters.
pub open spec fn pin_valid(p: Puzzle, types: Seq<String>, runs: Seq<Vec<(usize, usize)>>, r: int, c: int, y: Seq<usize>) -> bool {
    (exists|vi: int, k: int| #[trigger] from_variant(p, r, c, vi, k, y)) && filters_ok(p, types, runs, y)
}

/// As `pin_valid`, restricted to the first `m` variants.
pub open spec fn pin_valid_upto(
    p: Puzzle,
    types: Seq<String>,
    runs: Seq<Vec<(usize, usize)>>,
    r: int,
    c: int,
    m: int,
    y: Seq<usize>,
) -> bool {
    (exists|vi: int, k: int| 0 <= vi < m && #[trigger] from_variant(p, r, c, vi, k, y)) && filters_ok(
        p,
        types,
        runs,
        y,
    )
}

/// `e` is the member listing of a viable region for the pattern cell
/// `(r, c)`.
pub open spec fn pin_listing(p: Puzzle, types: Seq<String>, runs: Seq<Vec<(usize, usize)>>, r: int, c: int, e: Seq<usize>) -> bool {
    exists|y: Seq<usize>| #[trigger] pin_valid(p, types, runs, r, c, y) && e == listing(y, board_bits(p))
}

/// The candidates for pattern cell `(r, c)`: one placement per viable
/// region, in lexicographic order of their members, each a set over the whole
/// board.
pub open spec fn anchor_candidates_ok(
    p: Puzzle,
    types: Seq<String>,
    runs: Seq<Vec<(usize, usize)>>,
    a: AnchorCandidates,
    r: int,
    c: int,
) -> bool {
    let pl = a.placements@;
    let n = board_bits(p);
    &&& a.anchor == r * p.width + c
    &&& pl.len() > 0
    &&& forall|j: int|
        0 <= j < pl.len() ==> (#[trigger] pl[j]).anchor == a.anchor && pl[j].cells.wf() && pl[j].cells.nbits()
            == n
    &&& forall|i: int, j: int|
        0 <= i < j < pl.len() ==> lex_lt((#[trigger] pl[i]).cells.elems(), (#[trigger] pl[j]).cells.elems())
    &&& forall|j: int| 0 <= j < pl.len() ==> pin_listing(p, types, runs, r, c, (#[trigger] pl[j]).cells.elems())
    &&& forall|y: Seq<usize>|
        #[trigger] pin_valid(p, types, runs, r, c, y) ==> exists|j: int|
            0 <= j < pl.len() && (#[trigger] pl[j]).cells.elems() == listing(y, n)
}

proof fn lemma_listed_on_board(p: Puzzle, variant: Seq<(isize, isize)>, ar: int, ac: int, k: int, y: Seq<usize>)
    requires
        p.wf(),
        listed_placement(p, variant, ar, ac, k, y),
    ensures
        on_board(p, y),
{
    lemma_wf_dims(p);
    let cells = placement_cells(p, variant, ar, ac, k);
    assert forall|i: int| 0 <= i < y.len() implies (#[trigger] y[i]) < p.height * p.width by {
        vstd::seq_lib::to_multiset_contains(y, y[i]);
        assert(y.contains(y[i]));
        vstd::seq_lib::to_multiset_contains(cells, y[i]);
        let j = choose|j: int| 0 <= j < cells.len() && cells[j] == y[i];
        let q = placed_at(variant, ar, ac, k, j);
        crate::edge_csp::grid::lemma_cell_id_bound(p.height as int, p.width as int, q.0, q.1);
    }
}

proof fn lemma_pin_valid_on_board(p: Puzzle, types: Seq<String>, runs: Seq<Vec<(usize, usize)>>, r: int, c: int, y: Seq<usize>)
    requires
        p.wf(),
        pin_valid(p, types, runs, r, c, y),
    ensures
        on_board(p, y),
{
    let (vi, k) = choose|vi: int, k: int| #[trigger] from_variant(p, r, c, vi, k, y);
    lemma_listed_on_board(p, variants_upto(pattern_at(p, r, c), 8)[vi], r, c, k, y);
}

/// A canonical listing of board cells lists itself and stays on the board.
proof fn lemma_key_props(p: Puzzle, y: Seq<usize>)
    requires
        p.wf(),
        on_board(p, y),
    ensures
        listing(listing(y, board_bits(p)), board_bits(p)) == listing(y, board_bits(p)),
        on_board(p, listing(y, board_bits(p))),
{
    lemma_wf_dims(p);
    let n = board_bits(p);
    assert(n <= usize::MAX + 1) by {
        assert(p.height * p.width <= usize::MAX - 63) by (nonlinear_arith)
            requires
                2 * ((p.height + 1) * (p.width + 1)) <= usize::MAX,
        ;
    }
    lemma_listing_idem(y, n);
    lemma_listing_contains(y, n);
    let z = listing(y, n);
    assert forall|i: int| 0 <= i < z.len() implies (#[trigger] z[i]) < p.height * p.width by {
        assert(z[i] < n);
        assert(z.contains(z[i]));
        assert(y.contains(z[i]));
        let j = choose|j: int| 0 <= j < y.len() && y[j] == z[i];
        assert(y[j] < p.height * p.width);
    }
}

pub(crate) fn list_has(v: &Vec<usize>, x: usize) -> (b: bool)
    ensures
        b == v@.contains(x),
{
    let mut i: usize = 0;
    while i < v.len()
        invariant
            i <= v@.len(),
            forall|k: int| 0 <= k < i ==> v@[k] != x,
        decreases v@.len() - i,
    {
        if v[i] == x {
            return true;
        }
        i = i + 1;
    }
    false
}

fn run_respected_by(run: &Vec<(usize, usize)>, h: usize, w: usize, y: &Vec<usize>) -> (b: bool)
    requires
        h * w <= usize::MAX,
        forall|j: int| 0 <= j < run@.len() ==> (#[trigger] run@[j]).0 < h && run@[j].1 < w,
    ensures
        b == run_respected(run@, w as int, y@),
{
    let mut any = false;
    let mut all = true;
    let mut i: usize = 0;
    while i < run.len()
        invariant
            h * w <= usize::MAX,
            forall|j: int| 0 <= j < run@.len() ==> (#[trigger] run@[j]).0 < h && run@[j].1 < w,
            i <= run@.len(),
            any == exists|j: int| 0 <= j < i && y@.contains(#[trigger] run_cell(run@, w as int, j)),
            all == forall|j: int| 0 <= j < i ==> y@.contains(#[trigger] run_cell(run@, w as int, j)),
        decreases run@.len() - i,
    {
        let (rr, cc) = run[i];
        proof {
            crate::edge_csp::grid::lemma_cell_id_bound(h as int, w as int, rr as int, cc as int);
        }
        let x = rr * w + cc;
        let inside = list_has(y, x);
        proof {
            assert(run_cell(run@, w as int, i as int) == x);
        }
        any = any || inside;
        all = all && inside;
        i = i + 1;
    }
    !any || all
}

/// Whether the cells pass the symbol rule and the run rule.
fn filters_pass(puzzle: &Puzzle, symbol_types: &[String], runs: &[Vec<(usize, usize)>], y: &Vec<usize>) -> (b: bool)
    requires
        puzzle.wf(),
        runs_in_grid(*puzzle, runs@),
        on_board(*puzzle, y@),
    ensures
        b == filters_ok(*puzzle, symbol_types@, runs@, y@),
{
    let w = puzzle.width;
    proof {
        lemma_wf_dims(*puzzle);
    }
    if symbol_types.len() > 0 {
        let counts = placement_symbol_counts(puzzle, y.as_slice(), w, symbol_types);
        let mut t: usize = 0;
        while t < counts.len()
            invariant
                w == puzzle.width,
                t <= counts@.len(),
                counts@.len() == symbol_types@.len(),
                forall|u: int|
                    0 <= u < counts@.len() ==> #[trigger] counts@[u] == symbol_count(
                        *puzzle,
                        y@,
                        w as int,
                        symbol_types@,
                        u,
                    ),
                forall|u: int| 0 <= u < t ==> #[trigger] counts@[u] == 1,
            decreases counts@.len() - t,
        {
            if counts[t] != 1 {
                proof {
                    assert(counts@[t as int] == symbol_count(*puzzle, y@, w as int, symbol_types@, t as int));
                }
                return false;
            }
            t = t + 1;
        }
        proof {
            assert forall|u: int| 0 <= u < symbol_types@.len() implies #[trigger] symbol_count(
                *puzzle,
                y@,
                puzzle.width as int,
                symbol_types@,
                u,
            ) == 1 by {
                assert(counts@[u] == 1);
            }
        }
    }
    let mut i: usize = 0;
    while i < runs.len()
        invariant
            puzzle.wf(),
            w == puzzle.width,
            puzzle.height * puzzle.width < usize::MAX,
            runs_in_grid(*puzzle, runs@),
            one_of_each_symbol(*puzzle, symbol_types@, y@),
            i <= runs@.len(),
            forall|j: int| 0 <= j < i ==> run_respected(#[trigger] runs@[j]@, w as int, y@),
        decreases runs@.len() - i,
    {
        proof {
            assert forall|j: int| 0 <= j < runs@[i as int]@.len() implies (#[trigger] runs@[i as int]@[j]).0 < puzzle.height
                && runs@[i as int]@[j].1 < w by {
                assert(runs@[i as int]@[j].0 < puzzle.height);
            }
        }
        if !run_respected_by(&runs[i], puzzle.height, w, y) {
            return false;
        }
        i = i + 1;
    }
    true
}


pub proof fn lemma_board_room(p: Puzzle)
    requires
        p.wf(),
    ensures
        p.height * p.width <= usize::MAX - 63,
{
    assert(p.height * p.width <= usize::MAX - 63) by (nonlinear_arith)
        requires
            2 * ((p.height + 1) * (p.width + 1)) <= usize::MAX,
    ;
}

/// Adds to `keys` the member listing of each cell list in `pl` that passes
/// the filters.
fn collect_keys(
    puzzle: &Puzzle,
    symbol_types: &[String],
    runs: &[Vec<(usize, usize)>],
    pl: &Vec<Vec<usize>>,
    keys: &mut Vec<Vec<usize>>,
)
    requires
        puzzle.wf(),
        runs_in_grid(*puzzle, runs@),
        lex_sorted(old(keys)@),
        forall|j: int| 0 <= j < pl@.len() ==> on_board(*puzzle, (#[trigger] pl@[j])@),
    ensures
        lex_sorted(final(keys)@),
        forall|z: Seq<usize>|
            #[trigger] holds_list(final(keys)@, z) <==> (holds_list(old(keys)@, z) || exists|y: Seq<usize>|
                #[trigger] holds_list(pl@, y) && filters_ok(*puzzle, symbol_types@, runs@, y) && z == listing(
                    y,
                    board_bits(*puzzle),
                )),
{
    proof {
        lemma_wf_dims(*puzzle);
        lemma_board_room(*puzzle);
    }
    let n = puzzle.height * puzzle.width;
    let ghost nb = board_bits(*puzzle);
    let mut i: usize = 0;
    while i < pl.len()
        invariant
            puzzle.wf(),
            runs_in_grid(*puzzle, runs@),
            n == puzzle.height * puzzle.width,
            n <= usize::MAX - 63,
            nb == board_bits(*puzzle),
            forall|j: int| 0 <= j < pl@.len() ==> on_board(*puzzle, (#[trigger] pl@[j])@),
            i <= pl@.len(),
            lex_sorted(keys@),
            forall|z: Seq<usize>|
                #[trigger] holds_list(keys@, z) <==> (holds_list(old(keys)@, z) || exists|j: int|
                    0 <= j < i && filters_ok(*puzzle, symbol_types@, runs@, (#[trigger] pl@[j])@) && z == listing(
                        pl@[j]@,
                        nb,
                    )),
        decreases pl@.len() - i,
    {
        let y = &pl[i];
        let ghost before = keys@;
        if filters_pass(puzzle, symbol_types, runs, y) {
            let set = cellset_of(n, y);
            let key = set.iter();
            proof {
                lemma_elems_listing(set, y@, nb);
            }
            insert_sorted_dedup(keys, key);
        }
        proof {
            assert forall|z: Seq<usize>| #[trigger] holds_list(keys@, z) <==> (holds_list(old(keys)@, z) || exists|j: int|
                0 <= j < i + 1 && filters_ok(*puzzle, symbol_types@, runs@, (#[trigger] pl@[j])@) && z == listing(
                    pl@[j]@,
                    nb,
                )) by {
                if exists|j: int| 0 <= j < i + 1 && filters_ok(*puzzle, symbol_types@, runs@, (#[trigger] pl@[j])@) && z == listing(pl@[j]@, nb) {
                    let j = choose|j: int| 0 <= j < i + 1 && filters_ok(*puzzle, symbol_types@, runs@, (#[trigger] pl@[j])@) && z == listing(pl@[j]@, nb);
                    if j < i {
                        assert(holds_list(before, z));
                    }
                }
            }
        }
        i = i + 1;
    }
    proof {
        assert forall|z: Seq<usize>| #[trigger] holds_list(keys@, z) <==> (holds_list(old(keys)@, z) || exists|y: Seq<usize>|
            #[trigger] holds_list(pl@, y) && filters_ok(*puzzle, symbol_types@, runs@, y) && z == listing(y, nb)) by {
            if exists|j: int| 0 <= j < i && filters_ok(*puzzle, symbol_types@, runs@, (#[trigger] pl@[j])@) && z == listing(pl@[j]@, nb) {
                let j = choose|j: int| 0 <= j < i && filters_ok(*puzzle, symbol_types@, runs@, (#[trigger] pl@[j])@) && z == listing(pl@[j]@, nb);
                assert(holds_list(pl@, pl@[j]@));
            }
            if exists|y: Seq<usize>| #[trigger] holds_list(pl@, y) && filters_ok(*puzzle, symbol_types@, runs@, y) && z == listing(y, nb) {
                let y = choose|y: Seq<usize>| #[trigger] holds_list(pl@, y) && filters_ok(*puzzle, symbol_types@, runs@, y) && z == listing(y, nb);
                let j = choose|j: int| 0 <= j < pl@.len() && (#[trigger] pl@[j])@ == y;
                assert(filters_ok(*puzzle, symbol_types@, runs@, pl@[j]@));
            }
        }
    }
}

/// One placement per key, each the set of the key's cells.
fn placements_from_keys(keys: &Vec<Vec<usize>>, anchor: usize, n: usize) -> (out: Vec<PinnedPlacement>)
    requires
        n <= usize::MAX - 63,
        forall|j: int|
            0 <= j < keys@.len() ==> (#[trigger] keys@[j])@ == listing(keys@[j]@, CellSet::bits_for(n as nat) as int),
        forall|j: int, i: int| 0 <= j < keys@.len() && 0 <= i < keys@[j]@.len() ==> (#[trigger] keys@[j]@[i]) < n,
    ensures
        out@.len() == keys@.len(),
        forall|j: int|
            0 <= j < out@.len() ==> (#[trigger] out@[j]).anchor == anchor && out@[j].cells.wf()
                && out@[j].cells.nbits() == CellSet::bits_for(n as nat) && out@[j].cells.elems() == keys@[j]@,
{
    let ghost nb = CellSet::bits_for(n as nat) as int;
    let mut out: Vec<PinnedPlacement> = Vec::new();
    let mut j: usize = 0;
    while j < keys.len()
        invariant
            n <= usize::MAX - 63,
            nb == CellSet::bits_for(n as nat) as int,
            forall|q: int| 0 <= q < keys@.len() ==> (#[trigger] keys@[q])@ == listing(keys@[q]@, nb),
            forall|q: int, i: int| 0 <= q < keys@.len() && 0 <= i < keys@[q]@.len() ==> (#[trigger] keys@[q]@[i]) < n,
            j <= keys@.len(),
            out@.len() == j,
            forall|q: int|
                0 <= q < j ==> (#[trigger] out@[q]).anchor == anchor && out@[q].cells.wf() && out@[q].cells.nbits()
                    == CellSet::bits_for(n as nat) && out@[q].cells.elems() == keys@[q]@,
        decreases keys@.len() - j,
    {
        proof {
            assert forall|i: int| 0 <= i < keys@[j as int]@.len() implies (#[trigger] keys@[j as int]@[i]) < n by {
                assert(keys@[j as int]@[i] < n);
            }
        }
        let cells = cellset_of(n, &keys[j]);
        proof {
            lemma_elems_listing(cells, keys@[j as int]@, nb);
        }
        out.push(PinnedPlacement { anchor, cells });
        j = j + 1;
    }
    out
}


/// The keys gathered over every variant are the listings of exactly the
/// viable regions.
proof fn lemma_keys_all_variants(
    p: Puzzle,
    types: Seq<String>,
    rs: Seq<Vec<(usize, usize)>>,
    r: int,
    c: int,
    keys: Seq<Vec<usize>>,
    nb: int,
)
    requires
        forall|z: Seq<usize>|
            #[trigger] holds_list(keys, z) <==> exists|y: Seq<usize>|
                #[trigger] pin_valid_upto(p, types, rs, r, c, variants_upto(pattern_at(p, r, c), 8).len() as int, y)
                    && z == listing(y, nb),
    ensures
        forall|z: Seq<usize>|
            #[trigger] holds_list(keys, z) <==> exists|y: Seq<usize>| #[trigger] pin_valid(p, types, rs, r, c, y) && z == listing(y, nb),
{
    let m = variants_upto(pattern_at(p, r, c), 8).len() as int;
    assert forall|y: Seq<usize>| #[trigger] pin_valid(p, types, rs, r, c, y) <==> pin_valid_upto(p, types, rs, r, c, m, y) by {
        if pin_valid(p, types, rs, r, c, y) {
            let (q, k) = choose|q: int, k: int| #[trigger] from_variant(p, r, c, q, k, y);
            assert(0 <= q < m);
        }
    }
    assert forall|z: Seq<usize>| #[trigger] holds_list(keys, z) <==> exists|y: Seq<usize>| #[trigger] pin_valid(p, types, rs, r, c, y) && z == listing(y, nb) by {
        if holds_list(keys, z) {
            let y = choose|y: Seq<usize>| #[trigger] pin_valid_upto(p, types, rs, r, c, m, y) && z == listing(y, nb);
            assert(pin_valid(p, types, rs, r, c, y));
        }
        if exists|y: Seq<usize>| #[trigger] pin_valid(p, types, rs, r, c, y) && z == listing(y, nb) {
            let y = choose|y: Seq<usize>| #[trigger] pin_valid(p, types, rs, r, c, y) && z == listing(y, nb);
            assert(pin_valid_upto(p, types, rs, r, c, m, y));
        }
    }
}

/// Every gathered key is a canonical listing of board cells.
proof fn lemma_keys_canonical(p: Puzzle, types: Seq<String>, rs: Seq<Vec<(usize, usize)>>, r: int, c: int, keys: Seq<Vec<usize>>)
    requires
        p.wf(),
        forall|z: Seq<usize>|
            #[trigger] holds_list(keys, z) <==> exists|y: Seq<usize>|
                #[trigger] pin_valid(p, types, rs, r, c, y) && z == listing(y, board_bits(p)),
    ensures
        forall|j: int| 0 <= j < keys.len() ==> (#[trigger] keys[j])@ == listing(keys[j]@, board_bits(p)),
        forall|j: int, i: int| 0 <= j < keys.len() && 0 <= i < keys[j]@.len() ==> (#[trigger] keys[j]@[i]) < p.height * p.width,
{
    assert forall|j: int| 0 <= j < keys.len() implies (#[trigger] keys[j])@ == listing(keys[j]@, board_bits(p)) && on_board(p, keys[j]@) by {
        assert(holds_list(keys, keys[j]@));
        let y = choose|y: Seq<usize>| #[trigger] pin_valid(p, types, rs, r, c, y) && keys[j]@ == listing(y, board_bits(p));
        lemma_pin_valid_on_board(p, types, rs, r, c, y);
        lemma_key_props(p, y);
    }
    assert forall|j: int, i: int| 0 <= j < keys.len() && 0 <= i < keys[j]@.len() implies (#[trigger] keys[j]@[i]) < p.height * p.width by {
        assert(on_board(p, keys[j]@));
    }
}

/// Placements built one per key satisfy the candidate contract.
proof fn lemma_candidates_from_keys(
    p: Puzzle,
    types: Seq<String>,
    rs: Seq<Vec<(usize, usize)>>,
    r: int,
    c: int,
    keys: Seq<Vec<usize>>,
    a: AnchorCandidates,
)
    requires
        keys.len() > 0,
        lex_sorted(keys),
        forall|z: Seq<usize>|
            #[trigger] holds_list(keys, z) <==> exists|y: Seq<usize>|
                #[trigger] pin_valid(p, types, rs, r, c, y) && z == listing(y, board_bits(p)),
        a.anchor == r * p.width + c,
        a.placements@.len() == keys.len(),
        forall|j: int|
            0 <= j < a.placements@.len() ==> (#[trigger] a.placements@[j]).anchor == a.anchor
                && a.placements@[j].cells.wf() && a.placements@[j].cells.nbits() == board_bits(p)
                && a.placements@[j].cells.elems() == keys[j]@,
    ensures
        anchor_candidates_ok(p, types, rs, a, r, c),
{
    let pl = a.placements@;
    let nb = board_bits(p);
    assert forall|j: int| 0 <= j < pl.len() implies pin_listing(p, types, rs, r, c, (#[trigger] pl[j]).cells.elems()) by {
        assert(holds_list(keys, keys[j]@));
        let y = choose|y: Seq<usize>| #[trigger] pin_valid(p, types, rs, r, c, y) && keys[j]@ == listing(y, nb);
        assert(pl[j].cells.elems() == listing(y, nb));
    }
    assert forall|y: Seq<usize>| #[trigger] pin_valid(p, types, rs, r, c, y) implies exists|j: int|
        0 <= j < pl.len() && (#[trigger] pl[j]).cells.elems() == listing(y, nb) by {
        assert(holds_list(keys, listing(y, nb)));
        let j = choose|j: int| 0 <= j < keys.len() && (#[trigger] keys[j])@ == listing(y, nb);
        assert(pl[j].cells.elems() == keys[j]@);
    }
    assert forall|i: int, j: int| 0 <= i < j < pl.len() implies lex_lt((#[trigger] pl[i]).cells.elems(), (#[trigger] pl[j]).cells.elems()) by {
        assert(lex_lt(keys[i]@, keys[j]@));
    }
}

/// The candidates for the pattern cell `(r, c)`, or `None` when it has no
/// viable region.
fn anchor_candidates(
    puzzle: &Puzzle,
    symbol_types: &[String],
    runs: &[Vec<(usize, usize)>],
    r: usize,
    c: usize,
    pattern: &Vec<[usize; 2]>,
) -> (res: Option<AnchorCandidates>)
    requires
        puzzle.wf(),
        r < puzzle.height,
        c < puzzle.width,
        pattern_at(*puzzle, r as int, c as int) == pattern@,
        small_pattern(pattern@),
        runs_in_grid(*puzzle, runs@),
    ensures
        match res {
            None => forall|y: Seq<usize>| !#[trigger] pin_valid(*puzzle, symbol_types@, runs@, r as int, c as int, y),
            Some(a) => anchor_candidates_ok(*puzzle, symbol_types@, runs@, a, r as int, c as int),
        },
{
    proof {
        lemma_wf_dims(*puzzle);
        lemma_board_room(*puzzle);
        crate::edge_csp::grid::lemma_cell_id_bound(puzzle.height as int, puzzle.width as int, r as int, c as int);
    }
    let n = puzzle.height * puzzle.width;
    let ghost nb = board_bits(*puzzle);
    let ghost pz = *puzzle;
    let ghost types = symbol_types@;
    let ghost rs = runs@;
    let ghost ri = r as int;
    let ghost ci = c as int;
    let variants = dihedral_variants(pattern.as_slice());
    let ghost vs = variants_upto(pattern@, 8);
    let mut keys: Vec<Vec<usize>> = Vec::new();
    let mut vi: usize = 0;
    while vi < variants.len()
        invariant
            pz == *puzzle,
            types == symbol_types@,
            rs == runs@,
            ri == r,
            ci == c,
            puzzle.wf(),
            runs_in_grid(pz, rs),
            r < puzzle.height,
            c < puzzle.width,
            pattern_at(pz, ri, ci) == pattern@,
            vs == variants_upto(pattern@, 8),
            nb == board_bits(pz),
            variants@.len() == vs.len(),
            forall|i: int| 0 <= i < variants@.len() ==> (#[trigger] variants@[i])@ == vs[i],
            vi <= vs.len(),
            lex_sorted(keys@),
            forall|z: Seq<usize>|
                #[trigger] holds_list(keys@, z) <==> exists|y: Seq<usize>|
                    #[trigger] pin_valid_upto(pz, types, rs, ri, ci, vi as int, y) && z == listing(y, nb),
        decreases vs.len() - vi,
    {
        let pl = placements_for_variant(puzzle, &variants[vi], r, c);
        proof {
            assert forall|j: int| 0 <= j < pl@.len() implies on_board(pz, (#[trigger] pl@[j])@) by {
                assert(holds_list(pl@, pl@[j]@));
                let k = choose|k: int| #[trigger] listed_placement(pz, variants@[vi as int]@, ri, ci, k, pl@[j]@);
                lemma_listed_on_board(pz, variants@[vi as int]@, ri, ci, k, pl@[j]@);
            }
        }
        let ghost before = keys@;
        collect_keys(puzzle, symbol_types, runs, &pl, &mut keys);
        proof {
            assert forall|z: Seq<usize>| #[trigger] holds_list(keys@, z) <==> exists|y: Seq<usize>|
                #[trigger] pin_valid_upto(pz, types, rs, ri, ci, vi + 1, y) && z == listing(y, nb) by {
                if holds_list(before, z) {
                    let y = choose|y: Seq<usize>| #[trigger] pin_valid_upto(pz, types, rs, ri, ci, vi as int, y) && z == listing(y, nb);
                    let (q, k) = choose|q: int, k: int| 0 <= q < vi && #[trigger] from_variant(pz, ri, ci, q, k, y);
                    assert(pin_valid_upto(pz, types, rs, ri, ci, vi + 1, y));
                }
                if exists|y: Seq<usize>| #[trigger] holds_list(pl@, y) && filters_ok(pz, types, rs, y) && z == listing(y, nb) {
                    let y = choose|y: Seq<usize>| #[trigger] holds_list(pl@, y) && filters_ok(pz, types, rs, y) && z == listing(y, nb);
                    let k = choose|k: int| #[trigger] listed_placement(pz, variants@[vi as int]@, ri, ci, k, y);
                    assert(from_variant(pz, ri, ci, vi as int, k, y));
                    assert(pin_valid_upto(pz, types, rs, ri, ci, vi + 1, y));
                }
                if exists|y: Seq<usize>| #[trigger] pin_valid_upto(pz, types, rs, ri, ci, vi + 1, y) && z == listing(y, nb) {
                    let y = choose|y: Seq<usize>| #[trigger] pin_valid_upto(pz, types, rs, ri, ci, vi + 1, y) && z == listing(y, nb);
                    let (q, k) = choose|q: int, k: int| 0 <= q < vi + 1 && #[trigger] from_variant(pz, ri, ci, q, k, y);
                    if q < vi {
                        assert(pin_valid_upto(pz, types, rs, ri, ci, vi as int, y));
                        assert(holds_list(before, z));
                    } else {
                        assert(listed_placement(pz, variants@[vi as int]@, ri, ci, k, y));
                        assert(holds_list(pl@, y));
                    }
                }
            }
        }
        vi = vi + 1;
    }
    proof {
        lemma_keys_all_variants(pz, types, rs, ri, ci, keys@, nb);
    }
    if keys.len() == 0 {
        proof {
            assert forall|y: Seq<usize>| !#[trigger] pin_valid(pz, types, rs, ri, ci, y) by {
                if pin_valid(pz, types, rs, ri, ci, y) {
                    assert(holds_list(keys@, listing(y, nb)));
                }
            }
        }
        return None;
    }
    proof {
        lemma_keys_canonical(pz, types, rs, ri, ci, keys@);
    }
    let anchor = r * puzzle.width + c;
    let placements = placements_from_keys(&keys, anchor, n);
    let a = AnchorCandidates { anchor, placements };
    proof {
        lemma_candidates_from_keys(pz, types, rs, ri, ci, keys@, a);
    }
    Some(a)
}


/// The flat indices below `n` of the cells that carry a shape pattern, in
/// row-major order.
pub open spec fn pin_anchors(p: Puzzle, n: int) -> Seq<usize>
    decreases n,
{
    if n <= 0 {
        Seq::empty()
    } else {
        let f = n - 1;
        let prev = pin_anchors(p, f);
        if p.cell(f / p.width as int, f % p.width as int).shape_pattern is Some {
            prev.push(f as usize)
        } else {
            prev
        }
    }
}

/// Every shape pattern on the board has small coordinates.
pub open spec fn patterns_small(p: Puzzle) -> bool {
    forall|r: int, c: int|
        0 <= r < p.height && 0 <= c < p.width && (#[trigger] p.cell(r, c)).shape_pattern is Some ==> small_pattern(
            p.cell(r, c).shape_pattern.unwrap()@,
        )
}

/// The pattern cell at flat index `f` has a viable region.
pub open spec fn anchor_has_pin(p: Puzzle, types: Seq<String>, runs: Seq<Vec<(usize, usize)>>, f: int) -> bool {
    exists|y: Seq<usize>| #[trigger] pin_valid(p, types, runs, f / p.width as int, f % p.width as int, y)
}

proof fn lemma_pin_anchors_prefix(p: Puzzle, m: int, n: int)
    requires
        0 <= m <= n,
    ensures
        pin_anchors(p, m).len() <= pin_anchors(p, n).len(),
        forall|i: int| 0 <= i < pin_anchors(p, m).len() ==> pin_anchors(p, n)[i] == pin_anchors(p, m)[i],
    decreases n - m,
{
    if m < n {
        lemma_pin_anchors_prefix(p, m, n - 1);
    }
}

/// The candidate placements of every pattern cell, in row-major order of
/// the pattern cells; `None` when the board has no pattern cell or some
/// pattern cell has no viable region.  `runs` are the monochrome frame runs
/// of a `ring` puzzle (empty otherwise): a pinned region covers each run
/// wholly or not at all.
pub fn enumerate_pin_candidates(puzzle: &Puzzle, symbol_types: &[String], runs: &[Vec<(usize, usize)>]) -> (res:
    Option<Vec<AnchorCandidates>>)
    requires
        puzzle.wf(),
        patterns_small(*puzzle),
        runs_in_grid(*puzzle, runs@),
    ensures
        ({
            let anchors = pin_anchors(*puzzle, puzzle.height * puzzle.width);
            &&& res is None <==> (anchors.len() == 0 || exists|i: int|
                0 <= i < anchors.len() && !anchor_has_pin(*puzzle, symbol_types@, runs@, #[trigger] anchors[i] as int))
            &&& res matches Some(v) ==> v@.len() == anchors.len() && forall|i: int|
                0 <= i < v@.len() ==> anchor_candidates_ok(
                    *puzzle,
                    symbol_types@,
                    runs@,
                    #[trigger] v@[i],
                    anchors[i] as int / puzzle.width as int,
                    anchors[i] as int % puzzle.width as int,
                )
        }),
{
    proof {
        lemma_wf_dims(*puzzle);
    }
    let w = puzzle.width;
    let n = puzzle.height * w;
    let ghost pz = *puzzle;
    let ghost types = symbol_types@;
    let ghost rs = runs@;
    let mut anchors: Vec<AnchorCandidates> = Vec::new();
    let mut f: usize = 0;
    while f < n
        invariant
            pz == *puzzle,
            types == symbol_types@,
            rs == runs@,
            puzzle.wf(),
            patterns_small(pz),
            runs_in_grid(pz, rs),
            w == puzzle.width,
            n == puzzle.height * w,
            f <= n,
            anchors@.len() == pin_anchors(pz, f as int).len(),
            forall|i: int|
                0 <= i < anchors@.len() ==> anchor_candidates_ok(
                    pz,
                    types,
                    rs,
                    #[trigger] anchors@[i],
                    pin_anchors(pz, f as int)[i] as int / w as int,
                    pin_anchors(pz, f as int)[i] as int % w as int,
                ),
            forall|i: int|
                0 <= i < anchors@.len() ==> anchor_has_pin(pz, types, rs, #[trigger] pin_anchors(pz, f as int)[i] as int),
        decreases n - f,
    {
        proof {
            crate::edge_csp::grid::lemma_pos_bounds(puzzle.height as int, w as int, f as int);
        }
        let r = f / w;
        let c = f % w;
        let ghost prev = pin_anchors(pz, f as int);
        if let Some(pattern) = puzzle.cells[r][c].shape_pattern.as_ref() {
            proof {
                assert(pz.cell(r as int, c as int).shape_pattern is Some);
            }
            match anchor_candidates(puzzle, symbol_types, runs, r, c, pattern) {
                Some(a) => {
                    proof {
                        assert(pin_listing(pz, types, rs, r as int, c as int, a.placements@[0].cells.elems()));
                        let y = choose|y: Seq<usize>| #[trigger] pin_valid(pz, types, rs, r as int, c as int, y) && a.placements@[0].cells.elems() == listing(y, board_bits(pz));
                        assert(pin_anchors(pz, f + 1) == prev.push(f));
                        assert(anchor_has_pin(pz, types, rs, f as int));
                    }
                    anchors.push(a);
                },
                None => {
                    proof {
                        assert(pin_anchors(pz, f + 1) == prev.push(f));
                        assert(!anchor_has_pin(pz, types, rs, f as int));
                        lemma_pin_anchors_prefix(pz, f + 1, n as int);
                        assert(pin_anchors(pz, n as int)[prev.len() as int] == f);
                    }
                    return None;
                },
            }
        } else {
            proof {
                assert(pin_anchors(pz, f + 1) == prev);
            }
        }
        f = f + 1;
    }
    if anchors.len() == 0 {
        return None;
    }
    Some(anchors)
}

} // verus!
