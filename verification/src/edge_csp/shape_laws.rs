//! Laws of shape canonicalization: the canonical form is the least of the
//! shape's dihedral transforms in `Shape` order, so it is the same for every
//! rotation of a shape and canonicalizing twice changes nothing.

use vstd::prelude::*;
use vstd::relations::sorted_by;
use crate::edge_csp::polyomino::{
    Rotation,
    canonical_upto,
    cells_lt,
    coords_ok,
    dihedral_candidate,
    lemma_point_leq_total,
    max_col,
    max_row,
    min_col,
    min_row,
    point_leq,
    shape_lt,
    shifted,
    spec_canonical,
    spec_make_shape,
    spec_normalize,
    spec_rotate,
    spec_transform,
};

verus! {

/// `cells_lt` is irreflexive.
pub proof fn lemma_cells_lt_irrefl(a: Seq<(i32, i32)>)
    ensures
        !cells_lt(a, a),
    decreases a.len(),
{
    if a.len() > 0 {
        lemma_cells_lt_irrefl(a.drop_first());
    }
}

/// `cells_lt` is transitive.
pub proof fn lemma_cells_lt_trans(a: Seq<(i32, i32)>, b: Seq<(i32, i32)>, c: Seq<(i32, i32)>)
    requires
        cells_lt(a, b),
        cells_lt(b, c),
    ensures
        cells_lt(a, c),
    decreases a.len(),
{
    if a.len() > 0 && b.len() > 0 && c.len() > 0 && a[0] == b[0] && b[0] == c[0] {
        lemma_cells_lt_trans(a.drop_first(), b.drop_first(), c.drop_first());
    }
}

/// Two different point lists are ordered one way or the other.
pub proof fn lemma_cells_lt_total(a: Seq<(i32, i32)>, b: Seq<(i32, i32)>)
    requires
        a != b,
    ensures
        cells_lt(a, b) || cells_lt(b, a),
    decreases a.len(),
{
    if a.len() > 0 && b.len() > 0 && a[0] == b[0] {
        if a.drop_first() == b.drop_first() {
            assert(a =~= seq![a[0]] + a.drop_first());
            assert(b =~= seq![b[0]] + b.drop_first());
        }
        lemma_cells_lt_total(a.drop_first(), b.drop_first());
    } else if a.len() == 0 && b.len() == 0 {
        assert(a =~= b);
    }
}

/// `shape_lt` is a strict total order.
pub proof fn lemma_shape_lt_order(x: (int, int, Seq<(i32, i32)>), y: (int, int, Seq<(i32, i32)>), z: (int, int, Seq<(i32, i32)>))
    ensures
        !shape_lt(x, x),
        shape_lt(x, y) && shape_lt(y, z) ==> shape_lt(x, z),
        x != y ==> shape_lt(x, y) || shape_lt(y, x),
{
    lemma_cells_lt_irrefl(x.2);
    if shape_lt(x, y) && shape_lt(y, z) && x.0 == y.0 && y.0 == z.0 && x.1 == y.1 && y.1 == z.1 {
        lemma_cells_lt_trans(x.2, y.2, z.2);
    }
    if x != y && x.0 == y.0 && x.1 == y.1 {
        lemma_cells_lt_total(x.2, y.2);
    }
}

/// The running minimum after `k` candidates is one of them (or the shape)
/// and no smaller than any of them.
pub proof fn lemma_canonical_upto_min(s: (int, int, Seq<(i32, i32)>), k: nat)
    requires
        k <= 8,
    ensures
        canonical_upto(s, k) == s || exists|j: int| 0 <= j < k && canonical_upto(s, k) == #[trigger] dihedral_candidate(s.2, j),
        !shape_lt(s, canonical_upto(s, k)),
        forall|j: int| 0 <= j < k ==> !shape_lt(#[trigger] dihedral_candidate(s.2, j), canonical_upto(s, k)),
    decreases k,
{
    if k == 0 {
        lemma_shape_lt_order(s, s, s);
    } else {
        lemma_canonical_upto_min(s, (k - 1) as nat);
        let best = canonical_upto(s, (k - 1) as nat);
        let cand = dihedral_candidate(s.2, k - 1);
        lemma_shape_lt_order(cand, cand, cand);
        if shape_lt(cand, best) {
            lemma_shape_lt_order(s, cand, best);
            assert forall|j: int| 0 <= j < k implies !shape_lt(#[trigger] dihedral_candidate(s.2, j), cand) by {
                if j < k - 1 {
                    lemma_shape_lt_order(dihedral_candidate(s.2, j), cand, best);
                }
            }
        } else {
            assert forall|j: int| 0 <= j < k implies !shape_lt(#[trigger] dihedral_candidate(s.2, j), best) by {
            }
            if canonical_upto(s, (k - 1) as nat) != s {
                let j = choose|j: int| 0 <= j < k - 1 && canonical_upto(s, (k - 1) as nat) == #[trigger] dihedral_candidate(s.2, j);
                assert(canonical_upto(s, k) == dihedral_candidate(s.2, j));
            }
        }
    }
}

/// `x` is one of the eight dihedral candidates of `c`.
pub open spec fn is_candidate(c: Seq<(i32, i32)>, x: (int, int, Seq<(i32, i32)>)) -> bool {
    exists|k: int| 0 <= k < 8 && x == #[trigger] dihedral_candidate(c, k)
}

/// A candidate of `c` no larger than every candidate of `c`.
pub open spec fn least_candidate(c: Seq<(i32, i32)>, x: (int, int, Seq<(i32, i32)>)) -> bool {
    &&& is_candidate(c, x)
    &&& forall|k: int| 0 <= k < 8 ==> !shape_lt(#[trigger] dihedral_candidate(c, k), x)
}

/// There is only one least candidate.
pub proof fn lemma_least_unique(c: Seq<(i32, i32)>, x: (int, int, Seq<(i32, i32)>), y: (int, int, Seq<(i32, i32)>))
    requires
        least_candidate(c, x),
        least_candidate(c, y),
    ensures
        x == y,
{
    let kx = choose|k: int| 0 <= k < 8 && x == #[trigger] dihedral_candidate(c, k);
    let ky = choose|k: int| 0 <= k < 8 && y == #[trigger] dihedral_candidate(c, k);
    assert(!shape_lt(dihedral_candidate(c, kx), y));
    assert(!shape_lt(dihedral_candidate(c, ky), x));
    lemma_shape_lt_order(x, y, x);
}

/// When the shape is itself one of its candidates, its canonical form is
/// the least candidate.
pub proof fn lemma_canonical_least(s: (int, int, Seq<(i32, i32)>))
    requires
        is_candidate(s.2, s),
    ensures
        least_candidate(s.2, spec_canonical(s)),
{
    lemma_canonical_upto_min(s, 8);
    let m = spec_canonical(s);
    if m == s {
    }
}

/// The quarter turns of candidate `k`.
pub open spec fn rot_of(k: int) -> Rotation {
    if k / 2 == 0 {
        Rotation::R0
    } else if k / 2 == 1 {
        Rotation::R90
    } else if k / 2 == 2 {
        Rotation::R180
    } else {
        Rotation::R270
    }
}

/// Transform `k` of a point in exact integers: `k / 2` quarter turns, then
/// mirrored when `k` is odd.
pub open spec fn lin(k: int, r: int, c: int) -> (int, int) {
    let t = if k / 2 == 0 {
        (r, c)
    } else if k / 2 == 1 {
        (c, -r)
    } else if k / 2 == 2 {
        (-r, -c)
    } else {
        (-c, r)
    };
    if k % 2 == 1 {
        (t.0, -t.1)
    } else {
        t
    }
}

/// Transform `k2` after transform `k1`.
pub open spec fn compose(k1: int, k2: int) -> int {
    if k1 % 2 == 0 {
        (k1 + k2) % 8
    } else {
        (k1 - k2 + 8) % 8
    }
}

pub proof fn lemma_lin_compose(k1: int, k2: int, r: int, c: int)
    requires
        0 <= k1 < 8,
        0 <= k2 < 8,
    ensures
        lin(k2, lin(k1, r, c).0, lin(k1, r, c).1) == lin(compose(k1, k2), r, c),
        0 <= compose(k1, k2) < 8,
{
    if k1 == 0 {
    } else if k1 == 1 {
    } else if k1 == 2 {
    } else if k1 == 3 {
    } else if k1 == 4 {
    } else if k1 == 5 {
    } else if k1 == 6 {
    } else {
    }
}

/// Every transform is reached by composing with a fixed `k1`.
pub proof fn lemma_compose_onto(k1: int, k: int)
    requires
        0 <= k1 < 8,
        0 <= k < 8,
    ensures
        ({
            let k2 = if k1 % 2 == 0 { (k - k1 + 8) % 8 } else { (k1 - k + 8) % 8 };
            0 <= k2 < 8 && compose(k1, k2) == k
        }),
{
}

/// Transform of a point without `i32::MIN` coordinates, in exact integers.
pub proof fn lemma_rotate_point(s: Seq<(i32, i32)>, k: int, i: int)
    requires
        0 <= k < 8,
        0 <= i < s.len(),
        s[i].0 > i32::MIN,
        s[i].1 > i32::MIN,
    ensures
        (spec_rotate(s, rot_of(k), k % 2 == 1)[i].0 as int, spec_rotate(s, rot_of(k), k % 2 == 1)[i].1 as int)
            == lin(k, s[i].0 as int, s[i].1 as int),
{
}

/// Mapping two permutations of each other gives permutations of each other.
pub proof fn lemma_map_perm<A, B>(a: Seq<A>, b: Seq<A>, f: spec_fn(A) -> B)
    requires
        a.to_multiset() == b.to_multiset(),
    ensures
        a.map_values(f).to_multiset() == b.map_values(f).to_multiset(),
    decreases a.len(),
{
    vstd::seq_lib::to_multiset_len(a);
    vstd::seq_lib::to_multiset_len(b);
    if a.len() == 0 {
        assert(a.map_values(f) =~= Seq::<B>::empty());
        assert(b.map_values(f) =~= Seq::<B>::empty());
    } else {
        let x = a.last();
        let a1 = a.drop_last();
        assert(a == a1.push(x));
        vstd::seq_lib::to_multiset_build(a1, x);
        assert(b.to_multiset().contains(x));
        vstd::seq_lib::to_multiset_contains(b, x);
        let i = choose|i: int| 0 <= i < b.len() && b[i] == x;
        let b1 = b.remove(i);
        vstd::seq_lib::to_multiset_remove(b, i);
        assert(a1.to_multiset() =~= b1.to_multiset());
        lemma_map_perm(a1, b1, f);
        let ma = a.map_values(f);
        let mb = b.map_values(f);
        assert(ma == a1.map_values(f).push(f(x)));
        vstd::seq_lib::to_multiset_build(a1.map_values(f), f(x));
        assert(mb.remove(i) =~= b1.map_values(f));
        vstd::seq_lib::to_multiset_remove(mb, i);
        assert(mb[i] == f(x));
        vstd::seq_lib::to_multiset_contains(mb, f(x));
        assert(mb.to_multiset().remove(f(x)).insert(f(x)) =~= mb.to_multiset());
        assert(ma.to_multiset() =~= mb.to_multiset());
    }
}

/// The smallest row of a nonempty list is the value attained that no
/// element goes below.
pub proof fn lemma_min_row_is(s: Seq<(i32, i32)>, v: int)
    requires
        exists|k: int| 0 <= k < s.len() && s[k].0 == v,
        forall|i: int| 0 <= i < s.len() ==> v <= (#[trigger] s[i]).0,
    ensures
        min_row(s) == v,
{
    crate::edge_csp::polyomino::lemma_min_attained(s);
    crate::edge_csp::polyomino::lemma_min_bound(s);
    let k = choose|k: int| 0 <= k < s.len() && s[k].0 == v;
    let j = choose|j: int| 0 <= j < s.len() && s[j].0 == min_row(s);
    assert(min_row(s) <= s[k].0);
    assert(v <= s[j].0);
}

pub proof fn lemma_min_col_is(s: Seq<(i32, i32)>, v: int)
    requires
        exists|k: int| 0 <= k < s.len() && s[k].1 == v,
        forall|i: int| 0 <= i < s.len() ==> v <= (#[trigger] s[i]).1,
    ensures
        min_col(s) == v,
{
    crate::edge_csp::polyomino::lemma_min_attained(s);
    crate::edge_csp::polyomino::lemma_min_bound(s);
    let k = choose|k: int| 0 <= k < s.len() && s[k].1 == v;
    let j = choose|j: int| 0 <= j < s.len() && s[j].1 == min_col(s);
    assert(min_col(s) <= s[k].1);
    assert(v <= s[j].1);
}

/// Permutations have the same smallest row and column.
pub proof fn lemma_perm_mins(a: Seq<(i32, i32)>, b: Seq<(i32, i32)>)
    requires
        a.to_multiset() == b.to_multiset(),
        a.len() > 0,
    ensures
        min_row(a) == min_row(b),
        min_col(a) == min_col(b),
{
    crate::edge_csp::polyomino::lemma_min_attained(a);
    crate::edge_csp::polyomino::lemma_min_bound(a);
    let k = choose|k: int| 0 <= k < a.len() && a[k].0 == min_row(a);
    let k2 = choose|k: int| 0 <= k < a.len() && a[k].1 == min_col(a);
    vstd::seq_lib::to_multiset_contains(a, a[k]);
    vstd::seq_lib::to_multiset_contains(b, a[k]);
    vstd::seq_lib::to_multiset_contains(a, a[k2]);
    vstd::seq_lib::to_multiset_contains(b, a[k2]);
    assert forall|i: int| 0 <= i < b.len() implies min_row(a) <= (#[trigger] b[i]).0 && min_col(a) <= b[i].1 by {
        vstd::seq_lib::to_multiset_contains(b, b[i]);
        vstd::seq_lib::to_multiset_contains(a, b[i]);
        let j = choose|j: int| 0 <= j < a.len() && a[j] == b[i];
        assert(min_row(a) <= a[j].0 && min_col(a) <= a[j].1);
    }
    let jb = choose|j: int| 0 <= j < b.len() && b[j] == a[k];
    let jb2 = choose|j: int| 0 <= j < b.len() && b[j] == a[k2];
    assert(b[jb].0 == min_row(a));
    assert(b[jb2].1 == min_col(a));
    lemma_min_row_is(b, min_row(a));
    lemma_min_col_is(b, min_col(a));
}

/// Permutations of each other make the same shape.
pub proof fn lemma_perm_make_shape(a: Seq<(i32, i32)>, b: Seq<(i32, i32)>)
    requires
        a.to_multiset() == b.to_multiset(),
    ensures
        spec_make_shape(a) == spec_make_shape(b),
        spec_normalize(a) == spec_normalize(b),
{
    vstd::seq_lib::to_multiset_len(a);
    vstd::seq_lib::to_multiset_len(b);
    if a.len() == 0 {
        assert(a =~= b);
    } else {
        lemma_perm_mins(a, b);
        let mr = min_row(a);
        let mc = min_col(a);
        let f = |p: (i32, i32)| ((p.0 - mr) as i32, (p.1 - mc) as i32);
        assert(shifted(a) =~= a.map_values(f));
        assert(shifted(b) =~= b.map_values(f));
        lemma_map_perm(a, b, f);
        lemma_point_leq_total();
        shifted(a).lemma_sort_by_ensures(point_leq());
        crate::edge_csp::polyomino::lemma_sorted_equal(spec_normalize(a), shifted(b));
    }
}

/// A translated copy makes the same shape.
pub proof fn lemma_translate_make_shape(a: Seq<(i32, i32)>, b: Seq<(i32, i32)>, dr: int, dc: int)
    requires
        a.len() == b.len(),
        forall|i: int| 0 <= i < a.len() ==> (#[trigger] a[i]).0 == b[i].0 + dr && a[i].1 == b[i].1 + dc,
    ensures
        spec_make_shape(a) == spec_make_shape(b),
{
    if a.len() > 0 {
        crate::edge_csp::polyomino::lemma_min_attained(b);
        crate::edge_csp::polyomino::lemma_min_bound(b);
        let k = choose|k: int| 0 <= k < b.len() && b[k].0 == min_row(b);
        let k2 = choose|k: int| 0 <= k < b.len() && b[k].1 == min_col(b);
        assert(a[k].0 == min_row(b) + dr);
        assert(a[k2].1 == min_col(b) + dc);
        lemma_min_row_is(a, min_row(b) + dr);
        lemma_min_col_is(a, min_col(b) + dc);
        assert(shifted(a) =~= shifted(b));
    } else {
        assert(a =~= b);
    }
}

/// Transform `k` of a point list.
pub open spec fn variant(s: Seq<(i32, i32)>, k: int) -> Seq<(i32, i32)> {
    spec_rotate(s, rot_of(k), k % 2 == 1)
}

pub proof fn lemma_candidate_is_variant(s: Seq<(i32, i32)>, k: int)
    ensures
        dihedral_candidate(s, k) == spec_make_shape(variant(s, k)),
{
}

/// Normalizing first does not change any candidate.
pub proof fn lemma_normalize_candidate(c: Seq<(i32, i32)>, k: int)
    requires
        coords_ok(c),
        0 <= k < 8,
    ensures
        dihedral_candidate(spec_normalize(c), k) == dihedral_candidate(c, k),
{
    let n = spec_normalize(c);
    let sh = shifted(c);
    crate::edge_csp::polyomino::lemma_normalize_len(c);
    if c.len() == 0 {
        assert(n =~= c);
    } else {
        lemma_point_leq_total();
        sh.lemma_sort_by_ensures(point_leq());
        let rot = rot_of(k);
        let flip = k % 2 == 1;
        let g = |p: (i32, i32)|
            {
                let t = spec_transform(rot, p.0, p.1);
                if flip {
                    (t.0, (-t.1) as i32)
                } else {
                    t
                }
            };
        assert(variant(n, k) =~= n.map_values(g));
        assert(variant(sh, k) =~= sh.map_values(g));
        lemma_map_perm(n, sh, g);
        lemma_perm_make_shape(variant(n, k), variant(sh, k));
        crate::edge_csp::polyomino::lemma_min_attained(c);
        crate::edge_csp::polyomino::lemma_min_bound(c);
        let mr = min_row(c);
        let mc = min_col(c);
        let ka = choose|q: int| 0 <= q < c.len() && c[q].0 == mr;
        let kb = choose|q: int| 0 <= q < c.len() && c[q].1 == mc;
        let m = lin(k, mr, mc);
        assert forall|i: int| 0 <= i < c.len() implies (#[trigger] variant(sh, k)[i]).0 == variant(c, k)[i].0 - m.0
            && variant(sh, k)[i].1 == variant(c, k)[i].1 - m.1 by {
            assert(c[i].0 - c[ka].0 < i32::MAX);
            assert(c[i].1 - c[kb].1 < i32::MAX);
            assert(sh[i].0 == c[i].0 - mr);
            assert(sh[i].1 == c[i].1 - mc);
            lemma_rotate_point(sh, k, i);
            lemma_rotate_point(c, k, i);
        }
        lemma_translate_make_shape(variant(sh, k), variant(c, k), -m.0, -m.1);
    }
}

/// Transform `k2` after transform `k1` is transform `compose(k1, k2)`.
pub proof fn lemma_variant_compose(c: Seq<(i32, i32)>, k1: int, k2: int)
    requires
        coords_ok(c),
        0 <= k1 < 8,
        0 <= k2 < 8,
    ensures
        dihedral_candidate(variant(c, k1), k2) == dihedral_candidate(c, compose(k1, k2)),
{
    let v1 = variant(c, k1);
    crate::edge_csp::polyomino::lemma_rotate_coords_ok(c, rot_of(k1), k1 % 2 == 1);
    lemma_lin_compose(k1, k2, 0, 0);
    let k3 = compose(k1, k2);
    assert forall|i: int| 0 <= i < c.len() implies #[trigger] variant(v1, k2)[i] == variant(c, k3)[i] by {
        lemma_rotate_point(c, k1, i);
        lemma_rotate_point(v1, k2, i);
        lemma_rotate_point(c, k3, i);
        lemma_lin_compose(k1, k2, c[i].0 as int, c[i].1 as int);
    }
    assert(variant(v1, k2) =~= variant(c, k3));
}

/// The canonical form of the shape made from `x` is the least of the
/// candidates of `x`.
pub proof fn lemma_canonical_of_make_shape(x: Seq<(i32, i32)>)
    requires
        coords_ok(x),
    ensures
        least_candidate(x, spec_canonical(spec_make_shape(x))),
{
    let s = spec_make_shape(x);
    let n = spec_normalize(x);
    crate::edge_csp::polyomino::lemma_normalize_len(x);
    if x.len() == 0 {
        assert(n =~= s.2);
    }
    assert(s.2 == n);
    lemma_normalize_candidate(x, 0);
    assert(variant(x, 0) =~= x);
    assert(dihedral_candidate(s.2, 0) == s);
    lemma_canonical_least(s);
    let m = spec_canonical(s);
    assert forall|k: int| 0 <= k < 8 implies #[trigger] dihedral_candidate(s.2, k) == dihedral_candidate(x, k) by {
        lemma_normalize_candidate(x, k);
    }
    let j = choose|j: int| 0 <= j < 8 && m == #[trigger] dihedral_candidate(s.2, j);
    assert(m == dihedral_candidate(x, j));
    assert forall|k: int| 0 <= k < 8 implies !shape_lt(#[trigger] dihedral_candidate(x, k), m) by {
        assert(dihedral_candidate(s.2, k) == dihedral_candidate(x, k));
    }
}

/// Canonicalizing a transformed point list gives the same result as
/// canonicalizing the list itself (transform index form).
pub proof fn lemma_canonical_variant(c: Seq<(i32, i32)>, k1: int)
    requires
        coords_ok(c),
        0 <= k1 < 8,
    ensures
        spec_canonical(spec_make_shape(variant(c, k1))) == spec_canonical(spec_make_shape(c)),
{
    let c2 = variant(c, k1);
    crate::edge_csp::polyomino::lemma_rotate_coords_ok(c, rot_of(k1), k1 % 2 == 1);
    lemma_canonical_of_make_shape(c);
    lemma_canonical_of_make_shape(c2);
    let l2 = spec_canonical(spec_make_shape(c2));
    let j = choose|j: int| 0 <= j < 8 && l2 == #[trigger] dihedral_candidate(c2, j);
    lemma_variant_compose(c, k1, j);
    lemma_lin_compose(k1, j, 0, 0);
    assert(l2 == dihedral_candidate(c, compose(k1, j)));
    assert forall|k: int| 0 <= k < 8 implies !shape_lt(#[trigger] dihedral_candidate(c, k), l2) by {
        lemma_compose_onto(k1, k);
        let k2 = if k1 % 2 == 0 { (k - k1 + 8) % 8 } else { (k1 - k + 8) % 8 };
        lemma_variant_compose(c, k1, k2);
        assert(!shape_lt(dihedral_candidate(c2, k2), l2));
    }
    assert(least_candidate(c, l2));
    lemma_least_unique(c, l2, spec_canonical(spec_make_shape(c)));
}

/// The transform index of `rot` then `flip`.
pub open spec fn transform_index(rot: Rotation, flip: bool) -> int {
    2 * (match rot {
        Rotation::R0 => 0int,
        Rotation::R90 => 1int,
        Rotation::R180 => 2int,
        Rotation::R270 => 3int,
    }) + if flip { 1int } else { 0int }
}

/// Canonical forms are invariant under rotation and reflection: the shape
/// made from any rotated (and possibly mirrored) copy of a point list has
/// the same canonical form as the shape made from the list itself.
pub proof fn lemma_canonical_rotation_invariant(c: Seq<(i32, i32)>, rot: Rotation, flip: bool)
    requires
        coords_ok(c),
    ensures
        spec_canonical(spec_make_shape(spec_rotate(c, rot, flip))) == spec_canonical(spec_make_shape(c)),
{
    let k = transform_index(rot, flip);
    assert(rot_of(k) == rot);
    assert((k % 2 == 1) == flip);
    assert(variant(c, k) == spec_rotate(c, rot, flip));
    lemma_canonical_variant(c, k);
}

/// Canonicalization is idempotent: the canonical form of a shape made from
/// a point list is its own canonical form.
pub proof fn lemma_canonical_idempotent(c: Seq<(i32, i32)>)
    requires
        coords_ok(c),
    ensures
        spec_canonical(spec_canonical(spec_make_shape(c))) == spec_canonical(spec_make_shape(c)),
{
    let m = spec_canonical(spec_make_shape(c));
    lemma_canonical_of_make_shape(c);
    let j = choose|j: int| 0 <= j < 8 && m == #[trigger] dihedral_candidate(c, j);
    lemma_candidate_is_variant(c, j);
    lemma_canonical_variant(c, j);
}

/// Two point lists have the same canonical form exactly when the shape of
/// the second is one of the eight dihedral transforms of the first.
pub proof fn lemma_canonical_same_class(a: Seq<(i32, i32)>, b: Seq<(i32, i32)>)
    requires
        coords_ok(a),
        coords_ok(b),
    ensures
        (spec_canonical(spec_make_shape(a)) == spec_canonical(spec_make_shape(b))) <==> is_candidate(
            a,
            spec_make_shape(b),
        ),
{
    if is_candidate(a, spec_make_shape(b)) {
        let k = choose|k: int| 0 <= k < 8 && spec_make_shape(b) == #[trigger] dihedral_candidate(a, k);
        lemma_candidate_is_variant(a, k);
        lemma_canonical_variant(a, k);
    }
    if spec_canonical(spec_make_shape(a)) == spec_canonical(spec_make_shape(b)) {
        let m = spec_canonical(spec_make_shape(a));
        lemma_canonical_of_make_shape(a);
        lemma_canonical_of_make_shape(b);
        let ja = choose|j: int| 0 <= j < 8 && m == #[trigger] dihedral_candidate(a, j);
        let jb = choose|j: int| 0 <= j < 8 && m == #[trigger] dihedral_candidate(b, j);
        lemma_compose_onto(jb, 0);
        let k2 = if jb % 2 == 0 { (0 - jb + 8) % 8 } else { (jb - 0 + 8) % 8 };
        let va = variant(a, ja);
        let vb = variant(b, jb);
        crate::edge_csp::polyomino::lemma_rotate_coords_ok(a, rot_of(ja), ja % 2 == 1);
        crate::edge_csp::polyomino::lemma_rotate_coords_ok(b, rot_of(jb), jb % 2 == 1);
        lemma_candidate_is_variant(a, ja);
        lemma_candidate_is_variant(b, jb);
        assert(spec_normalize(va) =~= m.2) by {
            crate::edge_csp::polyomino::lemma_normalize_len(va);
        }
        assert(spec_normalize(vb) =~= m.2) by {
            crate::edge_csp::polyomino::lemma_normalize_len(vb);
        }
        lemma_variant_compose(b, jb, k2);
        lemma_normalize_candidate(vb, k2);
        lemma_normalize_candidate(va, k2);
        lemma_variant_compose(a, ja, k2);
        lemma_lin_compose(ja, k2, 0, 0);
        lemma_candidate_is_variant(b, 0);
        assert(variant(b, 0) =~= b);
        assert(spec_make_shape(b) == dihedral_candidate(a, compose(ja, k2)));
    }
}

} // verus!
