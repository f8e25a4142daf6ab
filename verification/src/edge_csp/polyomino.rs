//! Polyomino shape canonicalization: `make_shape`, `canonical`, `normalize`.
//!
//! A canonical shape is the smallest (in `Shape` order: height, then width,
//! then the sorted cell list lexicographically) of the shape itself and its 8
//! dihedral (rotation + reflection) transforms.

use vstd::prelude::*;
use vstd::relations::{sorted_by, total_ordering};
use crate::edge_csp::types::Shape;

verus! {

#[derive(Clone, Copy, Debug, PartialEq, Eq, Structural)]
pub enum Rotation {
    R0,
    R90,
    R180,
    R270,
}

/// Point order: by row, then by column.
pub open spec fn point_le(a: (i32, i32), b: (i32, i32)) -> bool {
    a.0 < b.0 || (a.0 == b.0 && a.1 <= b.1)
}

pub open spec fn point_leq() -> spec_fn((i32, i32), (i32, i32)) -> bool {
    |a: (i32, i32), b: (i32, i32)| point_le(a, b)
}

pub proof fn lemma_point_leq_total()
    ensures
        total_ordering(point_leq()),
{
}

/// Quarter-turn transform of a point (no overflow when neither coordinate is
/// `i32::MIN`).
pub open spec fn spec_transform(rot: Rotation, r: i32, c: i32) -> (i32, i32) {
    match rot {
        Rotation::R0 => (r, c),
        Rotation::R90 => (c, (-r) as i32),
        Rotation::R180 => ((-r) as i32, (-c) as i32),
        Rotation::R270 => ((-c) as i32, r),
    }
}

impl Rotation {
    pub fn all() -> (r: [Self; 4])
        ensures
            r@ == seq![Rotation::R0, Rotation::R90, Rotation::R180, Rotation::R270],
    {
        [Self::R0, Self::R90, Self::R180, Self::R270]
    }

    pub fn transform(self, r: i32, c: i32) -> (p: (i32, i32))
        requires
            r > i32::MIN,
            c > i32::MIN,
        ensures
            p == spec_transform(self, r, c),
    {
        match self {
            Self::R0 => (r, c),
            Self::R90 => (c, -r),
            Self::R180 => (-r, -c),
            Self::R270 => (-c, r),
        }
    }
}

/// Smallest row (`.0`) of a nonempty point list.
pub open spec fn min_row(s: Seq<(i32, i32)>) -> int
    decreases s.len(),
{
    if s.len() <= 1 {
        if s.len() == 1 {
            s[0].0 as int
        } else {
            0
        }
    } else {
        let m = min_row(s.drop_last());
        if s.last().0 < m {
            s.last().0 as int
        } else {
            m
        }
    }
}

pub open spec fn min_col(s: Seq<(i32, i32)>) -> int
    decreases s.len(),
{
    if s.len() <= 1 {
        if s.len() == 1 {
            s[0].1 as int
        } else {
            0
        }
    } else {
        let m = min_col(s.drop_last());
        if s.last().1 < m {
            s.last().1 as int
        } else {
            m
        }
    }
}

pub open spec fn max_row(s: Seq<(i32, i32)>) -> int
    decreases s.len(),
{
    if s.len() <= 1 {
        if s.len() == 1 {
            s[0].0 as int
        } else {
            0
        }
    } else {
        let m = max_row(s.drop_last());
        if s.last().0 > m {
            s.last().0 as int
        } else {
            m
        }
    }
}

pub open spec fn max_col(s: Seq<(i32, i32)>) -> int
    decreases s.len(),
{
    if s.len() <= 1 {
        if s.len() == 1 {
            s[0].1 as int
        } else {
            0
        }
    } else {
        let m = max_col(s.drop_last());
        if s.last().1 > m {
            s.last().1 as int
        } else {
            m
        }
    }
}

/// Row and column spreads of the points stay below `i32::MAX`, and no
/// coordinate is `i32::MIN` (so every quarter turn, every shift and the
/// bounding-box size stay in range).
pub open spec fn coords_ok(s: Seq<(i32, i32)>) -> bool {
    &&& forall|i: int| 0 <= i < s.len() ==> (#[trigger] s[i]).0 > i32::MIN && s[i].1 > i32::MIN
    &&& forall|i: int, j: int|
        0 <= i < s.len() && 0 <= j < s.len() ==> (#[trigger] s[i]).0 - (#[trigger] s[j]).0
            < i32::MAX && s[i].1 - s[j].1 < i32::MAX
}

/// The points shifted so the minimum row/column is 0.
pub open spec fn shifted(s: Seq<(i32, i32)>) -> Seq<(i32, i32)> {
    s.map_values(|p: (i32, i32)| ((p.0 - min_row(s)) as i32, (p.1 - min_col(s)) as i32))
}

/// `normalize`: shift to the origin, then sort by `point_le`.
pub open spec fn spec_normalize(s: Seq<(i32, i32)>) -> Seq<(i32, i32)> {
    shifted(s).sort_by(point_leq())
}

/// Spec-level shape: height, width and cell list.
pub open spec fn spec_make_shape(s: Seq<(i32, i32)>) -> (int, int, Seq<(i32, i32)>) {
    if s.len() == 0 {
        (0, 0, Seq::empty())
    } else {
        let n = spec_normalize(s);
        (max_row(n) + 1, max_col(n) + 1, n)
    }
}

pub open spec fn shape_view(s: &Shape) -> (int, int, Seq<(i32, i32)>) {
    (s.height as int, s.width as int, s.cells@)
}

/// Each point turned by `rot`, then mirrored (column negated) when `flip`.
pub open spec fn spec_rotate(s: Seq<(i32, i32)>, rot: Rotation, flip: bool) -> Seq<(i32, i32)> {
    s.map_values(
        |p: (i32, i32)|
            {
                let t = spec_transform(rot, p.0, p.1);
                if flip {
                    (t.0, (-t.1) as i32)
                } else {
                    t
                }
            },
    )
}

/// Lexicographic strict order on point lists (a proper prefix is smaller).
pub open spec fn cells_lt(a: Seq<(i32, i32)>, b: Seq<(i32, i32)>) -> bool
    decreases a.len(),
{
    if a.len() == 0 {
        b.len() > 0
    } else if b.len() == 0 {
        false
    } else if a[0] != b[0] {
        a[0].0 < b[0].0 || (a[0].0 == b[0].0 && a[0].1 < b[0].1)
    } else {
        cells_lt(a.drop_first(), b.drop_first())
    }
}

/// Strict `Shape` order: height, then width, then cells.
pub open spec fn shape_lt(a: (int, int, Seq<(i32, i32)>), b: (int, int, Seq<(i32, i32)>)) -> bool {
    a.0 < b.0 || (a.0 == b.0 && (a.1 < b.1 || (a.1 == b.1 && cells_lt(a.2, b.2))))
}

/// The eight dihedral candidates of a point list, in the order
/// `canonical` tries them (rotation-major, unflipped before flipped).
pub open spec fn dihedral_candidate(s: Seq<(i32, i32)>, k: int) -> (int, int, Seq<(i32, i32)>) {
    let rot = if k / 2 == 0 {
        Rotation::R0
    } else if k / 2 == 1 {
        Rotation::R90
    } else if k / 2 == 2 {
        Rotation::R180
    } else {
        Rotation::R270
    };
    spec_make_shape(spec_rotate(s, rot, k % 2 == 1))
}

/// Running minimum after trying the first `k` candidates, starting from the
/// shape itself; a later candidate replaces the best only when strictly
/// smaller.
pub open spec fn canonical_upto(s: (int, int, Seq<(i32, i32)>), k: nat) -> (
    int,
    int,
    Seq<(i32, i32)>,
)
    decreases k,
{
    if k == 0 {
        s
    } else {
        let best = canonical_upto(s, (k - 1) as nat);
        let cand = dihedral_candidate(s.2, k - 1);
        if shape_lt(cand, best) {
            cand
        } else {
            best
        }
    }
}

pub open spec fn spec_canonical(s: (int, int, Seq<(i32, i32)>)) -> (int, int, Seq<(i32, i32)>) {
    canonical_upto(s, 8)
}

fn min_max_coords(cells: &[(i32, i32)]) -> (r: (i32, i32, i32, i32))
    requires
        cells@.len() > 0,
    ensures
        r.0 == min_row(cells@),
        r.1 == min_col(cells@),
        r.2 == max_row(cells@),
        r.3 == max_col(cells@),
        forall|i: int|
            0 <= i < cells@.len() ==> r.0 <= (#[trigger] cells@[i]).0 <= r.2 && r.1 <= cells@[i].1
                <= r.3,
{
    let mut a = cells[0].0;
    let mut b = cells[0].1;
    let mut c = cells[0].0;
    let mut d = cells[0].1;
    let mut i: usize = 1;
    while i < cells.len()
        invariant
            1 <= i <= cells@.len(),
            a == min_row(cells@.take(i as int)),
            b == min_col(cells@.take(i as int)),
            c == max_row(cells@.take(i as int)),
            d == max_col(cells@.take(i as int)),
            forall|j: int|
                0 <= j < i ==> a <= (#[trigger] cells@[j]).0 <= c && b <= cells@[j].1 <= d,
        decreases cells@.len() - i,
    {
        assert(cells@.take(i + 1).drop_last() == cells@.take(i as int));
        let p = cells[i];
        if p.0 < a {
            a = p.0;
        }
        if p.1 < b {
            b = p.1;
        }
        if p.0 > c {
            c = p.0;
        }
        if p.1 > d {
            d = p.1;
        }
        i = i + 1;
    }
    assert(cells@.take(i as int) == cells@);
    (a, b, c, d)
}

/// Insert `x` into the sorted list `out`, after every element not above it.
fn insert_sorted(out: &mut Vec<(i32, i32)>, x: (i32, i32))
    requires
        sorted_by(old(out)@, point_leq()),
    ensures
        sorted_by(final(out)@, point_leq()),
        final(out)@.to_multiset() == old(out)@.to_multiset().insert(x),
{
    let mut j: usize = 0;
    while j < out.len() && (out[j].0 < x.0 || (out[j].0 == x.0 && out[j].1 <= x.1))
        invariant
            j <= out@.len(),
            out@ == old(out)@,
            forall|k: int| 0 <= k < j ==> point_le(#[trigger] out@[k], x),
        decreases out@.len() - j,
    {
        j = j + 1;
    }
    let ghost before = out@;
    out.insert(j, x);
    proof {
        vstd::seq_lib::to_multiset_insert(before, j as int, x);
        assert forall|a: int, b: int| 0 <= a < b < out@.len() implies #[trigger] point_leq()(
            out@[a],
            out@[b],
        ) by {
            if b < j {
                assert(point_leq()(before[a], before[b]));
            } else if a < j && b == j {
            } else if a < j && b > j {
                assert(point_leq()(before[a], before[b - 1]));
            } else if a == j {
                assert(j < before.len());
                assert(!point_le(before[j as int], x));
                if b - 1 > j {
                    assert(point_leq()(before[j as int], before[b - 1]));
                }
            } else {
                assert(point_leq()(before[a - 1], before[b - 1]));
            }
        }
    }
}

/// Shift cells so the minimum row/column is 0, then sort.
pub fn normalize(cells: &[(i32, i32)]) -> (out: Vec<(i32, i32)>)
    requires
        coords_ok(cells@),
    ensures
        out@ == spec_normalize(cells@),
{
    let v = cells;
    if v.len() == 0 {
        proof {
            assert(shifted(cells@) =~= Seq::<(i32, i32)>::empty());
            lemma_sorted_equal(Seq::<(i32, i32)>::empty(), shifted(cells@));
        }
        return Vec::new();
    }
    let (min_r, min_c, _, _) = min_max_coords(v);
    let mut out: Vec<(i32, i32)> = Vec::new();
    let mut i: usize = 0;
    proof {
        assert(shifted(v@).take(0) =~= out@);
    }
    while i < v.len()
        invariant
            v@ == cells@,
            v@.len() > 0,
            min_r == min_row(v@),
            min_c == min_col(v@),
            coords_ok(v@),
            forall|j: int|
                0 <= j < v@.len() ==> min_r <= (#[trigger] v@[j]).0 && min_c <= v@[j].1,
            i <= v@.len(),
            sorted_by(out@, point_leq()),
            out@.to_multiset() == shifted(v@).take(i as int).to_multiset(),
        decreases v@.len() - i,
    {
        let p = v[i];
        proof {
            lemma_min_attained(v@);
            let k = choose|k: int| 0 <= k < v@.len() && v@[k].0 == min_r;
            let k2 = choose|k2: int| 0 <= k2 < v@.len() && v@[k2].1 == min_c;
            assert(v@[i as int].0 - v@[k].0 <= i32::MAX);
            assert(v@[i as int].1 - v@[k2].1 <= i32::MAX);
        }
        let q = (p.0 - min_r, p.1 - min_c);
        let ghost prev = out@;
        insert_sorted(&mut out, q);
        proof {
            let sh = shifted(v@);
            assert(sh.take(i + 1) == sh.take(i as int).push(q));
            vstd::seq_lib::to_multiset_build(sh.take(i as int), q);
        }
        i = i + 1;
    }
    proof {
        assert(shifted(v@).take(i as int) == shifted(v@));
        lemma_sorted_equal(out@, shifted(cells@));
    }
    out
}

pub proof fn lemma_min_attained(s: Seq<(i32, i32)>)
    requires
        s.len() > 0,
    ensures
        exists|k: int| 0 <= k < s.len() && s[k].0 == min_row(s),
        exists|k: int| 0 <= k < s.len() && s[k].1 == min_col(s),
    decreases s.len(),
{
    if s.len() > 1 {
        lemma_min_attained(s.drop_last());
        let k1 = choose|k: int| 0 <= k < s.len() - 1 && s.drop_last()[k].0 == min_row(s.drop_last());
        let k2 = choose|k: int| 0 <= k < s.len() - 1 && s.drop_last()[k].1 == min_col(s.drop_last());
        if s.last().0 < min_row(s.drop_last()) {
            assert(s[s.len() - 1].0 == min_row(s));
        } else {
            assert(s[k1].0 == min_row(s));
        }
        if s.last().1 < min_col(s.drop_last()) {
            assert(s[s.len() - 1].1 == min_col(s));
        } else {
            assert(s[k2].1 == min_col(s));
        }
    } else {
        assert(s[0].0 == min_row(s));
        assert(s[0].1 == min_col(s));
    }
}

/// A sorted permutation of `s` is `s.sort_by(point_leq())`.
pub proof fn lemma_sorted_equal(out: Seq<(i32, i32)>, s: Seq<(i32, i32)>)
    requires
        sorted_by(out, point_leq()),
        out.to_multiset() == s.to_multiset(),
    ensures
        out == s.sort_by(point_leq()),
{
    lemma_point_leq_total();
    s.lemma_sort_by_ensures(point_leq());
    vstd::seq_lib::lemma_sorted_unique(out, s.sort_by(point_leq()), point_leq());
}

pub fn make_shape(cells: &[(i32, i32)]) -> (s: Shape)
    requires
        coords_ok(cells@),
    ensures
        shape_view(&s) == spec_make_shape(cells@),
{
    let ghost cells_in = cells@;
    let cells = normalize(cells);
    if cells.len() == 0 {
        proof {
            lemma_normalize_len(cells_in);
        }
        return Shape { height: 0, width: 0, cells: Vec::new() };
    }
    proof {
        lemma_normalize_len(cells_in);
    }
    let (_, _, max_r, max_c) = min_max_coords(cells.as_slice());
    proof {
        lemma_normalized_bounds(cells_in);
        lemma_max_attained(cells@);
    }
    Shape { height: max_r + 1, width: max_c + 1, cells }
}

pub proof fn lemma_normalize_len(s: Seq<(i32, i32)>)
    ensures
        spec_normalize(s).len() == s.len(),
{
    lemma_point_leq_total();
    shifted(s).lemma_sort_by_ensures(point_leq());
    vstd::seq_lib::to_multiset_len(shifted(s));
    vstd::seq_lib::to_multiset_len(spec_normalize(s));
}

/// Every normalized point lies in `0..i32::MAX` on both axes.
pub proof fn lemma_normalized_bounds(s: Seq<(i32, i32)>)
    requires
        coords_ok(s),
        s.len() > 0,
    ensures
        forall|k: int|
            0 <= k < spec_normalize(s).len() ==> 0 <= (#[trigger] spec_normalize(s)[k]).0 < i32::MAX
                && 0 <= spec_normalize(s)[k].1 < i32::MAX,
{
    let n = spec_normalize(s);
    let sh = shifted(s);
    lemma_point_leq_total();
    sh.lemma_sort_by_ensures(point_leq());
    lemma_min_attained(s);
    lemma_min_bound(s);
    assert forall|k: int| 0 <= k < n.len() implies 0 <= (#[trigger] n[k]).0 < i32::MAX && 0 <= n[k].1
        < i32::MAX by {
        vstd::seq_lib::to_multiset_contains(n, n[k]);
        assert(n.contains(n[k]));
        vstd::seq_lib::to_multiset_contains(sh, n[k]);
        let i = choose|i: int| 0 <= i < sh.len() && sh[i] == n[k];
        let a = choose|a: int| 0 <= a < s.len() && s[a].0 == min_row(s);
        let b = choose|b: int| 0 <= b < s.len() && s[b].1 == min_col(s);
        assert(s[i].0 - s[a].0 < i32::MAX);
        assert(s[i].1 - s[b].1 < i32::MAX);
    }
}

pub proof fn lemma_min_bound(s: Seq<(i32, i32)>)
    ensures
        forall|i: int| 0 <= i < s.len() ==> min_row(s) <= (#[trigger] s[i]).0 && min_col(s) <= s[i].1,
    decreases s.len(),
{
    if s.len() > 1 {
        lemma_min_bound(s.drop_last());
        assert forall|i: int| 0 <= i < s.len() implies min_row(s) <= (#[trigger] s[i]).0 && min_col(s)
            <= s[i].1 by {
            if i < s.len() - 1 {
                assert(s[i] == s.drop_last()[i]);
            }
        }
    }
}

pub proof fn lemma_max_attained(s: Seq<(i32, i32)>)
    requires
        s.len() > 0,
    ensures
        exists|k: int| 0 <= k < s.len() && s[k].0 == max_row(s),
        exists|k: int| 0 <= k < s.len() && s[k].1 == max_col(s),
    decreases s.len(),
{
    if s.len() > 1 {
        lemma_max_attained(s.drop_last());
        let k1 = choose|k: int| 0 <= k < s.len() - 1 && s.drop_last()[k].0 == max_row(s.drop_last());
        let k2 = choose|k: int| 0 <= k < s.len() - 1 && s.drop_last()[k].1 == max_col(s.drop_last());
        if s.last().0 > max_row(s.drop_last()) {
            assert(s[s.len() - 1].0 == max_row(s));
        } else {
            assert(s[k1].0 == max_row(s));
        }
        if s.last().1 > max_col(s.drop_last()) {
            assert(s[s.len() - 1].1 == max_col(s));
        } else {
            assert(s[k2].1 == max_col(s));
        }
    } else {
        assert(s[0].0 == max_row(s));
        assert(s[0].1 == max_col(s));
    }
}

/// Each point turned by `rot`, then mirrored when `flip`.
pub fn rotate(cells: &[(i32, i32)], rot: Rotation, flip: bool) -> (out: Vec<(i32, i32)>)
    requires
        forall|i: int| 0 <= i < cells@.len() ==> (#[trigger] cells@[i]).0 > i32::MIN && cells@[i].1
            > i32::MIN,
    ensures
        out@ == spec_rotate(cells@, rot, flip),
{
    let mut out: Vec<(i32, i32)> = Vec::new();
    let mut i: usize = 0;
    while i < cells.len()
        invariant
            i <= cells@.len(),
            forall|k: int| 0 <= k < cells@.len() ==> (#[trigger] cells@[k]).0 > i32::MIN && cells@[k].1
                > i32::MIN,
            out@ == spec_rotate(cells@, rot, flip).take(i as int),
        decreases cells@.len() - i,
    {
        let (r, c) = cells[i];
        let (nr, nc) = rot.transform(r, c);
        proof {
            assert(nc > i32::MIN);
        }
        let p = if flip {
            (nr, -nc)
        } else {
            (nr, nc)
        };
        out.push(p);
        proof {
            assert(spec_rotate(cells@, rot, flip).take(i + 1) == spec_rotate(cells@, rot, flip).take(
                i as int,
            ).push(p));
        }
        i = i + 1;
    }
    proof {
        assert(spec_rotate(cells@, rot, flip).take(i as int) == spec_rotate(cells@, rot, flip));
    }
    out
}

/// Quarter turns and mirroring keep the coordinate bounds.
pub proof fn lemma_rotate_coords_ok(s: Seq<(i32, i32)>, rot: Rotation, flip: bool)
    requires
        coords_ok(s),
    ensures
        coords_ok(spec_rotate(s, rot, flip)),
{
}

fn copy_cells(a: &Vec<(i32, i32)>) -> (r: Vec<(i32, i32)>)
    ensures
        r@ == a@,
{
    let mut r: Vec<(i32, i32)> = Vec::new();
    let mut i: usize = 0;
    while i < a.len()
        invariant
            i <= a@.len(),
            r@ == a@.take(i as int),
        decreases a@.len() - i,
    {
        r.push(a[i]);
        proof {
            assert(a@.take(i + 1) == a@.take(i as int).push(a@[i as int]));
        }
        i = i + 1;
    }
    proof {
        assert(a@.take(i as int) == a@);
    }
    r
}

/// Lexicographic `a < b` on point lists.
fn cells_less(a: &Vec<(i32, i32)>, b: &Vec<(i32, i32)>) -> (r: bool)
    ensures
        r == cells_lt(a@, b@),
{
    let mut i: usize = 0;
    proof {
        assert(a@.skip(0) == a@);
        assert(b@.skip(0) == b@);
    }
    while i < a.len() && i < b.len() && a[i].0 == b[i].0 && a[i].1 == b[i].1
        invariant
            i <= a@.len(),
            i <= b@.len(),
            cells_lt(a@, b@) == cells_lt(a@.skip(i as int), b@.skip(i as int)),
        decreases a@.len() - i,
    {
        proof {
            assert(a@.skip(i as int).drop_first() == a@.skip(i + 1));
            assert(b@.skip(i as int).drop_first() == b@.skip(i + 1));
        }
        i = i + 1;
    }
    if i == a.len() {
        i < b.len()
    } else if i == b.len() {
        false
    } else {
        a[i].0 < b[i].0 || (a[i].0 == b[i].0 && a[i].1 < b[i].1)
    }
}

/// `a < b` in `Shape` order: height, then width, then cells.
pub fn shape_less(a: &Shape, b: &Shape) -> (r: bool)
    ensures
        r == shape_lt(shape_view(a), shape_view(b)),
{
    a.height < b.height || (a.height == b.height && (a.width < b.width || (a.width == b.width
        && cells_less(&a.cells, &b.cells))))
}

/// Lexicographically smallest of the shape and its 8 dihedral transforms
/// (the canonical form).
pub fn canonical(s: &Shape) -> (r: Shape)
    requires
        coords_ok(s.cells@),
    ensures
        shape_view(&r) == spec_canonical(shape_view(s)),
        shape_view(&r) == shape_view(s) || exists|k: int| 0 <= k < 8 && shape_view(&r) == #[trigger] dihedral_candidate(s.cells@, k),
        !shape_lt(shape_view(s), shape_view(&r)),
        forall|k: int| 0 <= k < 8 ==> !shape_lt(#[trigger] dihedral_candidate(s.cells@, k), shape_view(&r)),
{
    proof {
        crate::edge_csp::shape_laws::lemma_canonical_upto_min(shape_view(s), 8);
    }
    let mut best = Shape { height: s.height, width: s.width, cells: copy_cells(&s.cells) };
    let rots = Rotation::all();
    let mut ri: usize = 0;
    while ri < 4
        invariant
            ri <= 4,
            rots@ == seq![Rotation::R0, Rotation::R90, Rotation::R180, Rotation::R270],
            coords_ok(s.cells@),
            shape_view(&best) == canonical_upto(shape_view(s), (2 * ri) as nat),
        decreases 4 - ri,
    {
        let rot = rots[ri];
        let mut fi: usize = 0;
        while fi < 2
            invariant
                ri < 4,
                fi <= 2,
                rot == rots@[ri as int],
                rots@ == seq![Rotation::R0, Rotation::R90, Rotation::R180, Rotation::R270],
                coords_ok(s.cells@),
                shape_view(&best) == canonical_upto(shape_view(s), (2 * ri + fi) as nat),
            decreases 2 - fi,
        {
            let flip = fi == 1;
            proof {
                lemma_rotate_coords_ok(s.cells@, rot, flip);
            }
            let rc = rotate(s.cells.as_slice(), rot, flip);
            let cand = make_shape(rc.as_slice());
            proof {
                let k = 2 * ri + fi;
                assert(k / 2 == ri as int);
                assert((k % 2 == 1) == flip);
                assert(shape_view(&cand) == dihedral_candidate(s.cells@, k as int));
            }
            if shape_less(&cand, &best) {
                best = cand;
            }
            fi = fi + 1;
        }
        ri = ri + 1;
    }
    best
}

} // verus!
