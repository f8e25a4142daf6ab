//! Candidate regions for `rose_window` matching: every pre-boundary-compliant
//! region grown from a seed cell inside the allowed cells, holding (with
//! several symbol types) exactly one cell of each type.

use vstd::prelude::*;
use std::collections::{HashMap, VecDeque};
use std::time::Instant;
use crate::clock::{checked_deadline, deadline_passed, millis};
use crate::pieces::neighbor_positions;
use crate::rose::cells::{CellSet, PreBoundaries, spec_edge_key, lemma_edge_key_symmetric};
use crate::rose::pin::same_set;
use crate::types::Puzzle;

verus! {

/// Most candidate regions returned per seed.
pub const CANDIDATE_CAP: usize = 20_000;

/// Candidates stop growing at this many cells.
pub const MAX_CANDIDATE_CELLS: usize = 100;

/// Time budget for one area combination, in milliseconds.
pub const PER_COMBO_TIMEOUT_MS: u64 = 1_000;

/// Most area combinations enumerated.
pub const MAX_COMBOS: usize = 50_000;

/// Most distinct regions explored per seed: the search stops there.
pub const VISITED_CAP: usize = 2_000_000;

/// Size windows at most this wide are grown through completely.
pub const WINDOW_GROW_LIMIT: usize = 8;

/// Flat cells `a` and `b` of an `h` by `w` grid share a side.
pub open spec fn flat_neighbours(h: int, w: int, a: int, b: int) -> bool {
    &&& 0 <= a < h * w && 0 <= b < h * w
    &&& {
        let (ra, ca) = (a / w, a % w);
        let (rb, cb) = (b / w, b % w);
        (ra == rb && (ca + 1 == cb || cb + 1 == ca)) || (ca == cb && (ra + 1 == rb || rb + 1 == ra))
    }
}

/// A pre-drawn boundary separates flat cells `a` and `b`.
pub open spec fn pre_separates(pre: PreBoundaries, w: int, a: int, b: int) -> bool {
    pre@.contains(spec_edge_key((a / w) as usize, (a % w) as usize, (b / w) as usize, (b % w) as usize))
}

/// Cells `x` the region can grow into from `cell`: a side neighbour in
/// `allowed`, outside `current`, with no pre-drawn boundary between.
pub open spec fn grows_into(h: int, w: int, allowed: CellSet, current: CellSet, pre: PreBoundaries, cell: int, x: int) -> bool {
    flat_neighbours(h, w, cell, x) && allowed.has(x) && !current.has(x) && !pre_separates(pre, w, cell, x)
}

proof fn lemma_flat_pos(h: int, w: int, r: int, c: int)
    requires
        0 <= r < h,
        0 <= c < w,
    ensures
        0 <= r * w + c < h * w,
        (r * w + c) / w == r,
        (r * w + c) % w == c,
{
    crate::edge_csp::grid::lemma_cell_id_bound(h, w, r, c);
}

/// The initial frontier around `seed`: its allowed side neighbours that no
/// pre-drawn boundary separates from it.
fn seed_initial_frontier(seed: usize, all_positions: &CellSet, pre: &PreBoundaries, h: usize, w: usize) -> (f: CellSet)
    requires
        seed < h * w,
        h * w <= all_positions.nbits(),
        all_positions.wf(),
        h * w <= usize::MAX - 63,
    ensures
        f.wf(),
        h * w <= f.nbits(),
        f.nbits() == CellSet::bits_for((h * w) as nat),
        forall|x: int| #[trigger] f.has(x) <==> (flat_neighbours(h as int, w as int, seed as int, x)
            && all_positions.has(x) && !pre_separates(*pre, w as int, seed as int, x)),
{
    proof {
        crate::edge_csp::grid::lemma_pos_bounds(h as int, w as int, seed as int);
    }
    let sr = seed / w;
    let sc = seed % w;
    let mut f = CellSet::new(h * w);
    let nbrs = neighbor_positions(sr, sc, h, w);
    let mut t: usize = 0;
    while t < nbrs.len()
        invariant
            sr < h,
            sc < w,
            sr == seed / w,
            sc == seed % w,
            seed < h * w,
            h * w <= usize::MAX - 63,
            h * w <= all_positions.nbits(),
            h * w <= f.nbits(),
            f.nbits() == CellSet::bits_for((h * w) as nat),
            f.wf(),
            t <= nbrs@.len(),
            forall|i: int|
                0 <= i < nbrs@.len() ==> {
                    let (nr, nc) = #[trigger] nbrs@[i];
                    &&& nr < h && nc < w
                    &&& (nr == sr && (nc + 1 == sc || sc + 1 == nc)) || (nc == sc && (nr + 1 == sr || sr + 1 == nr))
                },
            forall|nr: usize, nc: usize|
                nr < h && nc < w && ((nr == sr && (nc + 1 == sc || sc + 1 == nc)) || (nc == sc
                    && (nr + 1 == sr || sr + 1 == nr))) ==> #[trigger] nbrs@.contains((nr, nc)),
            forall|x: int| #[trigger] f.has(x) ==> flat_neighbours(h as int, w as int, seed as int, x)
                && all_positions.has(x) && !pre_separates(*pre, w as int, seed as int, x),
            forall|x: int| flat_neighbours(h as int, w as int, seed as int, x) && all_positions.has(x)
                && !pre_separates(*pre, w as int, seed as int, x) && (exists|i: int| 0 <= i < t && (#[trigger] nbrs@[i]).0 * w + nbrs@[i].1 == x) ==> f.has(x),
        decreases nbrs@.len() - t,
    {
        let (nr, nc) = nbrs[t];
        proof {
            lemma_flat_pos(h as int, w as int, nr as int, nc as int);
        }
        let nidx = nr * w + nc;
        if all_positions.contains(nidx) && !pre.contains(sr, sc, nr, nc) {
            f.insert(nidx);
        }
        t = t + 1;
    }
    proof {
        assert forall|x: int| flat_neighbours(h as int, w as int, seed as int, x) && all_positions.has(x)
            && !pre_separates(*pre, w as int, seed as int, x) implies #[trigger] f.has(x) by {
            crate::edge_csp::grid::lemma_pos_bounds(h as int, w as int, x);
            let nr = (x / w as int) as usize;
            let nc = (x % w as int) as usize;
            assert(nbrs@.contains((nr, nc)));
            let i = choose|i: int| 0 <= i < nbrs@.len() && nbrs@[i] == (nr, nc);
            assert(nbrs@[i].0 * w + nbrs@[i].1 == x);
        }
    }
    f
}

/// Whether some cell of `current` beside `(cr, cc)` is separated from it by a
/// pre-drawn boundary (adding the cell would put a boundary inside the
/// region).
fn frontier_blocked_by_pre(current: &CellSet, cr: usize, cc: usize, pre: &PreBoundaries, h: usize, w: usize) -> (b: bool)
    requires
        cr < h,
        cc < w,
        h * w <= current.nbits(),
        h * w <= usize::MAX,
    ensures
        b == exists|x: int| #![trigger current.has(x)]
            flat_neighbours(h as int, w as int, (cr * w + cc) as int, x) && current.has(x)
                && pre_separates(*pre, w as int, (cr * w + cc) as int, x),
{
    proof {
        lemma_flat_pos(h as int, w as int, cr as int, cc as int);
    }
    let ghost cell = (cr * w + cc) as int;
    let nbrs = neighbor_positions(cr, cc, h, w);
    let mut t: usize = 0;
    while t < nbrs.len()
        invariant
            cr < h,
            cc < w,
            h * w <= current.nbits(),
            h * w <= usize::MAX,
            cell == cr * w + cc,
            0 <= cell < h * w,
            cell / (w as int) == cr,
            cell % (w as int) == cc,
            t <= nbrs@.len(),
            forall|i: int|
                0 <= i < nbrs@.len() ==> {
                    let (nr, nc) = #[trigger] nbrs@[i];
                    &&& nr < h && nc < w
                    &&& (nr == cr && (nc + 1 == cc || cc + 1 == nc)) || (nc == cc && (nr + 1 == cr || cr + 1 == nr))
                },
            forall|nr: usize, nc: usize|
                nr < h && nc < w && ((nr == cr && (nc + 1 == cc || cc + 1 == nc)) || (nc == cc
                    && (nr + 1 == cr || cr + 1 == nr))) ==> #[trigger] nbrs@.contains((nr, nc)),
            forall|i: int| 0 <= i < t ==> !(current.has((#[trigger] nbrs@[i]).0 * w + nbrs@[i].1)
                && pre@.contains(spec_edge_key(cr, cc, nbrs@[i].0, nbrs@[i].1))),
        decreases nbrs@.len() - t,
    {
        let (nr, nc) = nbrs[t];
        proof {
            lemma_flat_pos(h as int, w as int, nr as int, nc as int);
        }
        if current.contains(nr * w + nc) && pre.contains(cr, cc, nr, nc) {
            proof {
                let x = nr * w + nc;
                assert(flat_neighbours(h as int, w as int, cell, x as int));
                assert(current.has(x as int));
            }
            return true;
        }
        t = t + 1;
    }
    proof {
        assert forall|x: int| #![trigger current.has(x)]
            flat_neighbours(h as int, w as int, cell, x) && current.has(x) implies !pre_separates(*pre, w as int, cell, x) by {
            crate::edge_csp::grid::lemma_pos_bounds(h as int, w as int, x);
            let nr = (x / w as int) as usize;
            let nc = (x % w as int) as usize;
            assert(nbrs@.contains((nr, nc)));
            let i = choose|i: int| 0 <= i < nbrs@.len() && nbrs@[i] == (nr, nc);
            assert(nbrs@[i].0 * w + nbrs@[i].1 == x);
        }
    }
    false
}

/// The frontier after adding `cell = (cr, cc)` to `current`: the old
/// frontier without `cell`, plus the cells the region can now grow into
/// from it.
fn expand_frontier(
    frontier: &CellSet,
    current: &CellSet,
    all_positions: &CellSet,
    cr: usize,
    cc: usize,
    pre: &PreBoundaries,
    h: usize,
    w: usize,
) -> (nf: CellSet)
    requires
        cr < h,
        cc < w,
        h * w <= frontier.nbits(),
        h * w <= current.nbits(),
        h * w <= all_positions.nbits(),
        h * w <= usize::MAX,
    ensures
        nf.nbits() == frontier.nbits(),
        nf.wf() == frontier.wf(),
        forall|x: int| #[trigger] nf.has(x) <==> ((frontier.has(x) && x != cr * w + cc) || grows_into(
            h as int,
            w as int,
            *all_positions,
            *current,
            *pre,
            (cr * w + cc) as int,
            x,
        )),
{
    proof {
        lemma_flat_pos(h as int, w as int, cr as int, cc as int);
    }
    let ghost cell = (cr * w + cc) as int;
    let mut nf = frontier.copy();
    nf.remove(cr * w + cc);
    let nbrs = neighbor_positions(cr, cc, h, w);
    let mut t: usize = 0;
    while t < nbrs.len()
        invariant
            cr < h,
            cc < w,
            h * w <= frontier.nbits(),
            h * w <= current.nbits(),
            h * w <= all_positions.nbits(),
            h * w <= usize::MAX,
            nf.nbits() == frontier.nbits(),
            nf.wf() == frontier.wf(),
            cell == cr * w + cc,
            0 <= cell < h * w,
            cell / (w as int) == cr,
            cell % (w as int) == cc,
            t <= nbrs@.len(),
            forall|i: int|
                0 <= i < nbrs@.len() ==> {
                    let (nr, nc) = #[trigger] nbrs@[i];
                    &&& nr < h && nc < w
                    &&& (nr == cr && (nc + 1 == cc || cc + 1 == nc)) || (nc == cc && (nr + 1 == cr || cr + 1 == nr))
                },
            forall|nr: usize, nc: usize|
                nr < h && nc < w && ((nr == cr && (nc + 1 == cc || cc + 1 == nc)) || (nc == cc
                    && (nr + 1 == cr || cr + 1 == nr))) ==> #[trigger] nbrs@.contains((nr, nc)),
            forall|x: int| #[trigger] nf.has(x) ==> ((frontier.has(x) && x != cell) || grows_into(
                h as int, w as int, *all_positions, *current, *pre, cell, x)),
            forall|x: int| frontier.has(x) && x != cell ==> #[trigger] nf.has(x),
            forall|i: int| 0 <= i < t && grows_into(h as int, w as int, *all_positions, *current, *pre, cell, (#[trigger] nbrs@[i]).0 * w + nbrs@[i].1) ==> nf.has(nbrs@[i].0 * w + nbrs@[i].1),
        decreases nbrs@.len() - t,
    {
        let (nr, nc) = nbrs[t];
        proof {
            lemma_flat_pos(h as int, w as int, nr as int, nc as int);
        }
        let nidx = nr * w + nc;
        if all_positions.contains(nidx) && !current.contains(nidx) && !pre.contains(cr, cc, nr, nc) {
            nf.insert(nidx);
        }
        t = t + 1;
    }
    proof {
        assert forall|x: int| grows_into(h as int, w as int, *all_positions, *current, *pre, cell, x) implies #[trigger] nf.has(x) by {
            crate::edge_csp::grid::lemma_pos_bounds(h as int, w as int, x);
            let nr = (x / w as int) as usize;
            let nc = (x % w as int) as usize;
            assert(nbrs@.contains((nr, nc)));
            let i = choose|i: int| 0 <= i < nbrs@.len() && nbrs@[i] == (nr, nc);
            assert(nbrs@[i].0 * w + nbrs@[i].1 == x);
        }
    }
    nf
}

/// Sets with the same members list the same elements.
proof fn lemma_elems_same(a: CellSet, b: CellSet, k: int)
    requires
        a.same_members(&b),
    ensures
        a.elems_upto(k) == b.elems_upto(k),
    decreases k,
{
    if k > 0 {
        lemma_elems_same(a, b, k - 1);
        assert(a.has(k - 1) == b.has(k - 1));
    }
}

/// The symbol type of cell `x` is already recorded in `syms`.
pub open spec fn sym_taken(symbol_of: Map<usize, usize>, x: int, syms: u64) -> bool {
    match sym_of(symbol_of, x) {
        Some(t) => mask_bit(syms, t as u64),
        None => false,
    }
}

/// `s` holds exactly the cells of `current` and cell `c`.
pub open spec fn plus_cell(s: CellSet, current: CellSet, c: int) -> bool {
    forall|x: int| #[trigger] s.has(x) == (current.has(x) || x == c)
}

/// The cell sets met so far, bucketed by fingerprint for lookup.
pub struct Visited {
    sets: Vec<CellSet>,
    buckets: HashMap<u64, Vec<usize>>,
}

impl Visited {
    pub closed spec fn len_spec(&self) -> nat {
        self.sets@.len()
    }

    /// The stored sets, in the order they were stored.
    pub closed spec fn stored(&self) -> Seq<CellSet> {
        self.sets@
    }

    /// Every stored set is well formed with `nbits` bits, every bucket
    /// entry indexes a stored set, and every stored set is listed in the
    /// bucket of its digest.
    pub closed spec fn wf(&self, nbits: nat) -> bool {
        &&& forall|i: int| 0 <= i < self.sets@.len() ==> (#[trigger] self.sets@[i]).wf() && self.sets@[i].nbits() == nbits
        &&& forall|k: u64, j: int|
            self.buckets@.contains_key(k) && 0 <= j < self.buckets@[k]@.len() ==> #[trigger] self.buckets@[k]@[j] < self.sets@.len()
        &&& forall|i: int|
            0 <= i < self.sets@.len() ==> self.buckets@.contains_key((#[trigger] self.sets@[i]).digest())
                && self.buckets@[self.sets@[i].digest()]@.contains(i as usize)
    }

    pub fn new() -> (v: Self)
        ensures
            v.len_spec() == 0,
            v.stored() == Seq::<CellSet>::empty(),
            forall|n: nat| v.wf(n),
    {
        broadcast use vstd::std_specs::hash::group_hash_axioms;

        Visited { sets: Vec::new(), buckets: HashMap::new() }
    }

    pub fn len(&self) -> (n: usize)
        ensures
            n == self.len_spec(),
    {
        self.sets.len()
    }

    /// Whether a set with the same members as `s` is stored.
    pub fn contains(&self, s: &CellSet) -> (r: bool)
        requires
            self.wf(s.nbits()),
            s.wf(),
        ensures
            r == exists|i: int| 0 <= i < self.stored().len() && (#[trigger] self.stored()[i]).same_members(s),
    {
        broadcast use vstd::std_specs::hash::group_hash_axioms;

        let fp = s.fingerprint();
        match self.buckets.get(&fp) {
            None => {
                proof {
                    if exists|i: int| 0 <= i < self.stored().len() && (#[trigger] self.stored()[i]).same_members(s) {
                        let i = choose|i: int| 0 <= i < self.stored().len() && (#[trigger] self.stored()[i]).same_members(s);
                        self.sets@[i].lemma_digest_members(s);
                        assert(self.sets@[i].nbits() == s.nbits());
                        assert(self.buckets@.contains_key(self.sets@[i].digest()));
                        assert(self.buckets@.contains_key(fp));
                        assert(false);
                    }
                }
                false
            },
            Some(bucket) => {
                let mut j: usize = 0;
                while j < bucket.len()
                    invariant
                        self.wf(s.nbits()),
                        s.wf(),
                        fp == s.digest(),
                        self.buckets@.contains_key(fp),
                        *bucket == self.buckets@[fp],
                        j <= bucket@.len(),
                        forall|q: int| 0 <= q < j ==> !self.sets@[#[trigger] bucket@[q] as int].same_members(s),
                    decreases bucket@.len() - j,
                {
                    let idx = bucket[j];
                    proof {
                        if self.sets@[idx as int].same_members(s) {
                            lemma_elems_same(self.sets@[idx as int], *s, self.sets@[idx as int].nbits() as int);
                            assert(self.sets@[idx as int].nbits() == s.nbits());
                        }
                    }
                    if same_set(&self.sets[idx], s) && same_set(s, &self.sets[idx]) {
                        proof {
                            assert(self.sets@[idx as int].same_members(s));
                            assert(self.stored()[idx as int].same_members(s));
                        }
                        return true;
                    }
                    j = j + 1;
                }
                proof {
                    if exists|i: int| 0 <= i < self.stored().len() && (#[trigger] self.stored()[i]).same_members(s) {
                        let i = choose|i: int| 0 <= i < self.stored().len() && (#[trigger] self.stored()[i]).same_members(s);
                        assert(self.sets@[i].nbits() == s.nbits());
                        self.sets@[i].lemma_digest_members(s);
                        assert(self.buckets@.contains_key(self.sets@[i].digest()));
                        assert(self.buckets@[self.sets@[i].digest()]@.contains(i as usize));
                        assert(self.buckets@[fp]@.contains(i as usize));
                        assert(bucket@ == self.buckets@[fp]@);
                        assert(bucket@.contains(i as usize));
                        assert(i < self.sets.len());
                        assert((i as usize) as int == i);
                        let q = choose|q: int| 0 <= q < bucket@.len() && bucket@[q] == i as usize;
                        assert(bucket@[q] as int == i);
                        assert(!self.sets@[bucket@[q] as int].same_members(s));
                        assert(false);
                    }
                }
                false
            },
        }
    }

    /// Store `s`.
    pub fn insert(&mut self, s: CellSet)
        requires
            old(self).wf(s.nbits()),
            s.wf(),
        ensures
            final(self).wf(s.nbits()),
            final(self).len_spec() == old(self).len_spec() + 1,
            final(self).stored() == old(self).stored().push(s),
    {
        broadcast use vstd::std_specs::hash::group_hash_axioms;

        let fp = s.fingerprint();
        let idx = self.sets.len();
        let ghost n = s.nbits();
        self.sets.push(s);
        let mut bucket = match self.buckets.remove(&fp) {
            Some(b) => b,
            None => Vec::new(),
        };
        proof {
            assert forall|j: int| 0 <= j < bucket@.len() implies #[trigger] bucket@[j] < self.sets@.len() by {
                assert(old(self).buckets@.contains_key(fp));
                assert(bucket == old(self).buckets@[fp]);
            }
        }
        let ghost b0 = bucket@;
        bucket.push(idx);
        self.buckets.insert(fp, bucket);
        proof {
            assert forall|i: int| 0 <= i < self.sets@.len() implies self.buckets@.contains_key((#[trigger] self.sets@[i]).digest())
                && self.buckets@[self.sets@[i].digest()]@.contains(i as usize) by {
                if i == idx as int {
                    assert(self.buckets@[fp]@[b0.len() as int] == idx);
                } else {
                    assert(self.sets@[i] == old(self).sets@[i]);
                    let d = old(self).sets@[i].digest();
                    assert(old(self).buckets@.contains_key(d));
                    assert(old(self).buckets@[d]@.contains(i as usize));
                    if d == fp {
                        assert(b0 == old(self).buckets@[fp]@);
                        let q = choose|q: int| 0 <= q < b0.len() && b0[q] == i as usize;
                        assert(self.buckets@[fp]@[q] == i as usize);
                    }
                }
            }
            assert forall|k: u64, j: int|
                self.buckets@.contains_key(k) && 0 <= j < self.buckets@[k]@.len() implies #[trigger] self.buckets@[k]@[j] < self.sets@.len() by {
                if k != fp {
                    assert(old(self).buckets@.contains_key(k));
                    assert(self.buckets@[k] == old(self).buckets@[k]);
                }
            }
            assert forall|i: int| 0 <= i < self.sets@.len() implies (#[trigger] self.sets@[i]).wf() && self.sets@[i].nbits() == n by {
                if i < old(self).sets@.len() {
                    assert(self.sets@[i] == old(self).sets@[i]);
                }
            }
        }
    }
}

/// The symbol type of flat cell `x`, if any.
pub open spec fn sym_of(symbol_of: Map<usize, usize>, x: int) -> Option<usize> {
    if symbol_of.contains_key(x as usize) {
        Some(symbol_of[x as usize])
    } else {
        None
    }
}

/// Some cell of `r` holds a symbol of type `t`.
pub open spec fn has_type(r: CellSet, symbol_of: Map<usize, usize>, t: int) -> bool {
    exists|x: int| #![trigger r.has(x)] r.has(x) && sym_of(symbol_of, x) == Some(t as usize)
}

/// Bit `t` of mask `m`.
pub open spec fn mask_bit(m: u64, t: u64) -> bool {
    (m >> t) & 1 == 1
}

/// `p` is a walk through cells of `s`, each step between side neighbours
/// with no pre-drawn boundary between them.
pub open spec fn walk_in(h: int, w: int, pre: PreBoundaries, s: CellSet, p: Seq<int>) -> bool {
    &&& p.len() >= 1
    &&& forall|i: int| 0 <= i < p.len() ==> s.has(#[trigger] p[i])
    &&& forall|i: int|
        0 <= i < p.len() - 1 ==> flat_neighbours(h, w, #[trigger] p[i], p[i + 1]) && !pre_separates(pre, w, p[i], p[i + 1])
}

/// Cell `x` is reached from `seed` by a walk through `s`.
pub open spec fn linked(h: int, w: int, pre: PreBoundaries, s: CellSet, seed: int, x: int) -> bool {
    exists|p: Seq<int>| #[trigger] walk_in(h, w, pre, s, p) && p[0] == seed && p.last() == x
}

/// Every cell of `s` is reached from `seed` by a walk through `s` (so `s`
/// is 4-connected without crossing a pre-drawn boundary).
pub open spec fn connected_from(h: int, w: int, pre: PreBoundaries, s: CellSet, seed: int) -> bool {
    forall|x: int| #[trigger] s.has(x) ==> linked(h, w, pre, s, seed, x)
}

/// A walk through `a` is a walk through every set holding `a`.
proof fn lemma_walk_grow(h: int, w: int, pre: PreBoundaries, a: CellSet, b: CellSet, p: Seq<int>)
    requires
        walk_in(h, w, pre, a, p),
        forall|x: int| #[trigger] a.has(x) ==> b.has(x),
    ensures
        walk_in(h, w, pre, b, p),
{
    assert forall|i: int| 0 <= i < p.len() implies b.has(#[trigger] p[i]) by {
        assert(a.has(p[i]));
    }
}

/// A set with the members of a connected set is connected.
proof fn lemma_connected_same(h: int, w: int, pre: PreBoundaries, a: CellSet, b: CellSet, seed: int)
    requires
        connected_from(h, w, pre, a, seed),
        forall|x: int| #[trigger] b.has(x) == a.has(x),
    ensures
        connected_from(h, w, pre, b, seed),
{
    assert forall|x: int| #[trigger] b.has(x) implies linked(h, w, pre, b, seed, x) by {
        assert(a.has(x));
        let p = choose|p: Seq<int>| #[trigger] walk_in(h, w, pre, a, p) && p[0] == seed && p.last() == x;
        lemma_walk_grow(h, w, pre, a, b, p);
    }
}

/// Adding to a connected set a cell next to one of its members, with no
/// pre-drawn boundary between, keeps it connected.
proof fn lemma_connected_add(h: int, w: int, pre: PreBoundaries, a: CellSet, b: CellSet, seed: int, c: int, y: int)
    requires
        connected_from(h, w, pre, a, seed),
        forall|x: int| #[trigger] b.has(x) == (a.has(x) || x == c),
        a.has(y),
        flat_neighbours(h, w, y, c),
        !pre_separates(pre, w, y, c),
    ensures
        connected_from(h, w, pre, b, seed),
{
    assert forall|x: int| #[trigger] b.has(x) implies linked(h, w, pre, b, seed, x) by {
        if a.has(x) {
            let p = choose|p: Seq<int>| #[trigger] walk_in(h, w, pre, a, p) && p[0] == seed && p.last() == x;
            lemma_walk_grow(h, w, pre, a, b, p);
        } else {
            assert(x == c);
            assert(a.has(y));
            let p = choose|p: Seq<int>| #[trigger] walk_in(h, w, pre, a, p) && p[0] == seed && p.last() == y;
            lemma_walk_grow(h, w, pre, a, b, p);
            let q = p.push(c);
            assert(q[q.len() - 2] == y);
            assert forall|i: int| 0 <= i < q.len() implies b.has(#[trigger] q[i]) by {
                if i < p.len() {
                    assert(q[i] == p[i]);
                }
            }
            assert forall|i: int| 0 <= i < q.len() - 1 implies flat_neighbours(h, w, #[trigger] q[i], q[i + 1]) && !pre_separates(pre, w, q[i], q[i + 1]) by {
                if i < p.len() - 1 {
                    assert(q[i] == p[i] && q[i + 1] == p[i + 1]);
                } else {
                    assert(q[i] == y && q[i + 1] == c);
                }
            }
            assert(walk_in(h, w, pre, b, q));
        }
    }
}

/// A region under construction from `seed`: it holds the seed and otherwise
/// allowed cells of the grid, no pre-drawn boundary runs between two of its
/// cells, the frontier holds allowed grid cells, and with several symbol
/// types `syms` records exactly the types present, each at most once.
pub open spec fn region_state_ok(
    h: int,
    w: int,
    seed: int,
    all_positions: CellSet,
    pre: PreBoundaries,
    symbol_of: Map<usize, usize>,
    multi: bool,
    nbits: nat,
    current: CellSet,
    frontier: CellSet,
    syms: u64,
) -> bool {
    &&& current.wf() && current.nbits() == nbits
    &&& frontier.wf() && frontier.nbits() == nbits
    &&& current.has(seed)
    &&& forall|x: int| #[trigger] current.has(x) ==> 0 <= x < h * w && (x == seed || all_positions.has(x))
    &&& forall|x: int| #[trigger] frontier.has(x) ==> 0 <= x < h * w && all_positions.has(x)
    &&& forall|f: int| #[trigger] frontier.has(f) ==> exists|y: int|
        #![trigger current.has(y)]
        current.has(y) && flat_neighbours(h, w, y, f) && !pre_separates(pre, w, y, f)
    &&& connected_from(h, w, pre, current, seed)
    &&& forall|a: int, b: int|
        #![trigger current.has(a), current.has(b)]
        current.has(a) && current.has(b) && flat_neighbours(h, w, a, b) ==> !pre_separates(pre, w, a, b)
    &&& multi ==> forall|t: u64|
        t < 64 ==> (#[trigger] mask_bit(syms, t) <==> exists|x: int| #![trigger current.has(x)] current.has(x) && sym_of(symbol_of, x) == Some(t as usize))
    &&& multi ==> forall|a: int, b: int|
        #![trigger current.has(a), current.has(b)]
        current.has(a) && current.has(b) && a != b && sym_of(symbol_of, a) is Some ==> sym_of(symbol_of, a) != sym_of(symbol_of, b)
}

pub proof fn lemma_mask_or(m: u64, ti: u64, t: u64)
    requires
        ti < 64,
        t < 64,
    ensures
        mask_bit(m | (1u64 << ti), t) <==> (mask_bit(m, t) || t == ti),
        (m & (1u64 << ti) != 0) <==> mask_bit(m, ti),
{
    assert(((m | (1u64 << ti)) >> t) & 1 == 1 <==> (((m >> t) & 1 == 1) || t == ti)) by (bit_vector)
        requires
            ti < 64,
            t < 64,
    ;
    assert((m & (1u64 << ti) != 0) <==> ((m >> ti) & 1 == 1)) by (bit_vector)
        requires
            ti < 64,
    ;
}

pub proof fn lemma_mask_single(ti: u64, t: u64)
    requires
        ti < 64,
        t < 64,
    ensures
        mask_bit(1u64 << ti, t) <==> t == ti,
        !mask_bit(0, t),
{
    assert((((1u64 << ti) >> t) & 1 == 1) <==> t == ti) by (bit_vector)
        requires
            ti < 64,
            t < 64,
    ;
    assert(!(((0u64 >> t) & 1) == 1)) by (bit_vector);
}

pub proof fn lemma_mask_full(n: u64, t: u64)
    requires
        n < 64,
        t < n,
    ensures
        mask_bit(((1u64 << n) - 1) as u64, t),
{
    assert((((((1u64 << n) - 1) as u64) >> t) & 1 == 1)) by (bit_vector)
        requires
            n < 64,
            t < n,
    ;
}

/// Try to grow `current` by frontier cell `cell`: `None` when its symbol type
/// is already present (several types), a pre-drawn boundary separates it
/// from the region, or the grown set was met before; otherwise the grown
/// set, its frontier and its symbol mask, recorded as met.
fn process_frontier_cell(
    current: &CellSet,
    frontier: &CellSet,
    visited: &mut Visited,
    all_positions: &CellSet,
    cell: usize,
    syms: u64,
    is_multi: bool,
    symbol_of: &HashMap<usize, usize>,
    pre: &PreBoundaries,
    h: usize,
    w: usize,
    Ghost(seed): Ghost<int>,
) -> (r: Option<(CellSet, CellSet, u64)>)
    requires
        region_state_ok(h as int, w as int, seed, *all_positions, *pre, symbol_of@, is_multi, current.nbits(), *current, *frontier, syms),
        frontier.has(cell as int),
        old(visited).wf(current.nbits()),
        h * w <= current.nbits(),
        h * w <= all_positions.nbits(),
        current.nbits() <= usize::MAX,
        forall|k: usize| #[trigger] symbol_of@.contains_key(k) ==> symbol_of@[k] < 64,
    ensures
        final(visited).wf(current.nbits()),
        final(visited).len_spec() == old(visited).len_spec() + if r is Some { 1nat } else { 0nat },
        r matches Some((nc, nfr, ns)) ==> region_state_ok(h as int, w as int, seed, *all_positions, *pre, symbol_of@, is_multi, current.nbits(), nc, nfr, ns),
        r is Some <==> !(is_multi && sym_taken(symbol_of@, cell as int, syms))
            && !(exists|x: int| #![trigger current.has(x)]
            flat_neighbours(h as int, w as int, cell as int, x) && current.has(x) && pre_separates(*pre, w as int, cell as int, x))
            && !(exists|i: int| 0 <= i < old(visited).stored().len() && plus_cell(#[trigger] old(visited).stored()[i], *current, cell as int)),
        r is None ==> final(visited).stored() == old(visited).stored(),
        r matches Some((nc, nfr, ns)) ==> {
            &&& plus_cell(nc, *current, cell as int)
            &&& final(visited).stored().len() == old(visited).stored().len() + 1
            &&& final(visited).stored().drop_last() == old(visited).stored()
            &&& plus_cell(final(visited).stored().last(), *current, cell as int)
            &&& ns == match sym_of(symbol_of@, cell as int) {
                Some(t) => syms | (1u64 << t as u64),
                None => syms,
            }
            &&& nfr.nbits() == frontier.nbits()
            &&& forall|x: int| #[trigger] nfr.has(x) <==> ((frontier.has(x) && x != cell as int) || grows_into(
                h as int,
                w as int,
                *all_positions,
                *current,
                *pre,
                cell as int,
                x,
            ))
        },
{
    broadcast use vstd::std_specs::hash::group_hash_axioms;

    proof {
        crate::edge_csp::grid::lemma_pos_bounds(h as int, w as int, cell as int);
    }
    let cr = cell / w;
    let cc = cell % w;
    proof {
        lemma_flat_pos(h as int, w as int, cr as int, cc as int);
        assert(cr * w + cc == cell);
    }
    let cell_sym: Option<usize> = match symbol_of.get(&cell) {
        Some(ti) => Some(*ti),
        None => None,
    };
    proof {
        assert(cell_sym == sym_of(symbol_of@, cell as int));
    }
    let mut skip = false;
    if let Some(ti) = cell_sym {
        proof {
            lemma_mask_or(syms, ti as u64, ti as u64);
        }
        if is_multi && (syms & (1u64 << ti as u64)) != 0 {
            skip = true;
        }
    }
    if !skip && frontier_blocked_by_pre(current, cr, cc, pre, h, w) {
        skip = true;
    }
    if skip {
        return None;
    }
    let mut new_fs = current.copy();
    new_fs.insert(cell);
    proof {
        assert forall|i: int| 0 <= i < visited.stored().len() implies #[trigger] visited.stored()[i].same_members(&new_fs)
            == plus_cell(visited.stored()[i], *current, cell as int) by {
            if visited.stored()[i].same_members(&new_fs) {
                assert forall|x: int| #[trigger] visited.stored()[i].has(x) == (current.has(x) || x == cell as int) by {
                    assert(new_fs.has(x) == (x == cell as int || current.has(x)));
                }
            }
            if plus_cell(visited.stored()[i], *current, cell as int) {
                assert forall|x: int| #[trigger] visited.stored()[i].has(x) == new_fs.has(x) by {
                    assert(new_fs.has(x) == (x == cell as int || current.has(x)));
                }
            }
        }
    }
    if visited.contains(&new_fs) {
        return None;
    }
    let stored_copy = new_fs.copy();
    proof {
        assert forall|x: int| #[trigger] stored_copy.has(x) == (current.has(x) || x == cell as int) by {
            assert(new_fs.has(x) == (x == cell as int || current.has(x)));
        }
    }
    let ghost v0 = visited.stored();
    visited.insert(stored_copy);
    proof {
        assert(visited.stored().drop_last() == v0);
        assert(visited.stored().last() == stored_copy);
        assert forall|x: int| #[trigger] new_fs.has(x) == (current.has(x) || x == cell as int) by {}
    }
    let new_syms = match cell_sym {
        Some(ti) => syms | (1u64 << ti as u64),
        None => syms,
    };
    let new_frontier = expand_frontier(frontier, current, all_positions, cr, cc, pre, h, w);
    proof {
        let c = cell as int;
        assert(frontier.has(c));
        let y = choose|y: int| #![trigger current.has(y)] current.has(y) && flat_neighbours(h as int, w as int, y, c) && !pre_separates(*pre, w as int, y, c);
        lemma_connected_add(h as int, w as int, *pre, *current, new_fs, seed, c, y);
        assert forall|f: int| #[trigger] new_frontier.has(f) implies exists|y2: int|
            #![trigger new_fs.has(y2)]
            new_fs.has(y2) && flat_neighbours(h as int, w as int, y2, f) && !pre_separates(*pre, w as int, y2, f) by {
            if frontier.has(f) && f != c {
                let y1 = choose|y1: int| #![trigger current.has(y1)] current.has(y1) && flat_neighbours(h as int, w as int, y1, f) && !pre_separates(*pre, w as int, y1, f);
                assert(new_fs.has(y1));
            } else {
                assert(new_fs.has(c));
            }
        }
        assert forall|a: int, b: int|
            #![trigger new_fs.has(a), new_fs.has(b)]
            new_fs.has(a) && new_fs.has(b) && flat_neighbours(h as int, w as int, a, b) implies !pre_separates(*pre, w as int, a, b) by {
            if a == c && b != c {
                assert(current.has(b));
                assert(flat_neighbours(h as int, w as int, c, b));
            } else if b == c && a != c {
                assert(current.has(a));
                assert(flat_neighbours(h as int, w as int, c, a));
                assert(!pre_separates(*pre, w as int, c, a));
                lemma_edge_key_symmetric((a / w as int) as usize, (a % w as int) as usize, (c / w as int) as usize, (c % w as int) as usize);
            } else if a == c && b == c {
                assert(!flat_neighbours(h as int, w as int, a, b));
            }
        }
        if is_multi {
            assert forall|t: u64| t < 64 implies (#[trigger] mask_bit(new_syms, t) <==> exists|x: int| #![trigger new_fs.has(x)] new_fs.has(x) && sym_of(symbol_of@, x) == Some(t as usize)) by {
                match cell_sym {
                    Some(ti) => {
                        lemma_mask_or(syms, ti as u64, t);
                        if t == ti as u64 {
                            assert(new_fs.has(c));
                        }
                    },
                    None => {},
                }
                if mask_bit(syms, t) {
                    let x = choose|x: int| #![trigger current.has(x)] current.has(x) && sym_of(symbol_of@, x) == Some(t as usize);
                    assert(new_fs.has(x));
                }
                if exists|x: int| #![trigger new_fs.has(x)] new_fs.has(x) && sym_of(symbol_of@, x) == Some(t as usize) {
                    let x = choose|x: int| #![trigger new_fs.has(x)] new_fs.has(x) && sym_of(symbol_of@, x) == Some(t as usize);
                    if x != c {
                        assert(current.has(x));
                    }
                }
            }
            assert forall|a: int, b: int|
                #![trigger new_fs.has(a), new_fs.has(b)]
                new_fs.has(a) && new_fs.has(b) && a != b && sym_of(symbol_of@, a) is Some implies sym_of(symbol_of@, a) != sym_of(symbol_of@, b) by {
                if a == c {
                    let ti = cell_sym.unwrap();
                    lemma_mask_or(syms, ti as u64, ti as u64);
                    assert(!mask_bit(syms, ti as u64));
                    assert(current.has(b));
                } else if b == c {
                    if sym_of(symbol_of@, a) == sym_of(symbol_of@, b) {
                        let ti = cell_sym.unwrap();
                        lemma_mask_or(syms, ti as u64, ti as u64);
                        assert(current.has(a));
                        assert(mask_bit(syms, ti as u64));
                    }
                } else {
                    assert(current.has(a) && current.has(b));
                }
            }
        }
    }
    Some((new_fs, new_frontier, new_syms))
}

/// A set with at most one member more than `a` lists at most one more
/// member.
proof fn lemma_elems_one_more(b: CellSet, a: CellSet, c: int, k: int)
    requires
        forall|x: int| #[trigger] b.has(x) ==> a.has(x) || x == c,
    ensures
        b.elems_upto(k).len() <= a.elems_upto(k).len() + (if 0 <= c < k { 1int } else { 0int }),
    decreases k,
{
    if k > 0 {
        lemma_elems_one_more(b, a, c, k - 1);
    }
}

/// The size bound on candidate regions: the top of the size window or the
/// cell cap, whichever is smaller, but at least the seed alone.
pub open spec fn candidate_size_cap(useful_max: usize) -> int {
    let m = if useful_max < MAX_CANDIDATE_CELLS { useful_max as int } else { MAX_CANDIDATE_CELLS as int };
    if m < 1 { 1 } else { m }
}

/// The cell sets of queued search states.
pub open spec fn queued_sets(q: Seq<(CellSet, CellSet, u64)>) -> Seq<CellSet> {
    Seq::new(q.len(), |i: int| q[i].0)
}

/// No two sets of `s` have the same members.
pub open spec fn distinct_sets(s: Seq<CellSet>) -> bool {
    forall|i: int, j: int| #![trigger s[i], s[j]] 0 <= i < s.len() && 0 <= j < s.len() && i != j ==> !s[i].same_members(&s[j])
}

/// Some set of `stored` has the members of `x`.
pub open spec fn stored_like(stored: Seq<CellSet>, x: CellSet) -> bool {
    exists|k: int| 0 <= k < stored.len() && (#[trigger] stored[k]).same_members(&x)
}

/// Every set of `s` has the members of some set of `stored`.
pub open spec fn all_stored(s: Seq<CellSet>, stored: Seq<CellSet>) -> bool {
    forall|i: int| 0 <= i < s.len() ==> stored_like(stored, #[trigger] s[i])
}

/// Having the same members is symmetric and transitive.
proof fn lemma_same_members_trans(a: CellSet, b: CellSet, c: CellSet)
    ensures
        a.same_members(&b) ==> b.same_members(&a),
        a.same_members(&b) && b.same_members(&c) ==> a.same_members(&c),
{
    if a.same_members(&b) {
        assert forall|x: int| #[trigger] b.has(x) == a.has(x) by {
            assert(a.has(x) == b.has(x));
        }
    }
    if a.same_members(&b) && b.same_members(&c) {
        assert forall|x: int| #[trigger] a.has(x) == c.has(x) by {
            assert(a.has(x) == b.has(x));
            assert(b.has(x) == c.has(x));
        }
    }
}

/// Moving the first queued state to the results, or dropping it, keeps the
/// states distinct and stored.
proof fn lemma_pop_state(r: Seq<CellSet>, q: Seq<CellSet>, snap: CellSet, keep: bool, stored: Seq<CellSet>)
    requires
        q.len() > 0,
        distinct_sets(r + q),
        all_stored(r + q, stored),
        snap.same_members(&q[0]),
    ensures
        ({
            let r2 = if keep { r.push(snap) } else { r };
            distinct_sets(r2 + q.drop_first()) && all_stored(r2 + q.drop_first(), stored)
        }),
{
    let c = r + q;
    let r2 = if keep { r.push(snap) } else { r };
    let c2 = r2 + q.drop_first();
    // index map from c2 into c
    assert forall|i: int| 0 <= i < c2.len() implies (#[trigger] c2[i]).same_members(&c[if i < r.len() { i } else if keep && i == r.len() { r.len() as int } else if keep { i } else { i + 1 }]) by {
        if i < r.len() {
            assert(c2[i] == r[i]);
        } else if keep && i == r.len() {
            assert(c2[i] == snap);
            assert(c[r.len() as int] == q[0]);
        } else if keep {
            assert(c2[i] == q[i - r.len()]);
            assert(c[i] == q[i - r.len()]);
        } else {
            assert(c2[i] == q[i - r.len() + 1]);
            assert(c[i + 1] == q[i - r.len() + 1]);
        }
    }
    assert forall|i: int, j: int| #![trigger c2[i], c2[j]] 0 <= i < c2.len() && 0 <= j < c2.len() && i != j implies !c2[i].same_members(&c2[j]) by {
        let fi = if i < r.len() { i } else if keep && i == r.len() { r.len() as int } else if keep { i } else { i + 1 };
        let fj = if j < r.len() { j } else if keep && j == r.len() { r.len() as int } else if keep { j } else { j + 1 };
        assert(c2[i].same_members(&c[fi]));
        assert(c2[j].same_members(&c[fj]));
        assert(fi != fj);
        if c2[i].same_members(&c2[j]) {
            lemma_same_members_trans(c[fi], c2[i], c2[j]);
            lemma_same_members_trans(c2[i], c[fi], c[fi]);
            lemma_same_members_trans(c[fi], c2[j], c[fj]);
            assert(c[fi].same_members(&c[fj]));
        }
    }
    assert forall|i: int| 0 <= i < c2.len() implies stored_like(stored, #[trigger] c2[i]) by {
        let fi = if i < r.len() { i } else if keep && i == r.len() { r.len() as int } else if keep { i } else { i + 1 };
        assert(c2[i].same_members(&c[fi]));
        assert(stored_like(stored, c[fi]));
        let k = choose|k: int| 0 <= k < stored.len() && (#[trigger] stored[k]).same_members(&c[fi]);
        lemma_same_members_trans(c2[i], c[fi], c[fi]);
        lemma_same_members_trans(stored[k], c[fi], c2[i]);
        assert(stored[k].same_members(&c2[i]));
    }
    assert(distinct_sets(c2));
    assert(all_stored(c2, stored));
}

/// Queueing a set unlike every stored one, and storing it, keeps the states
/// distinct and stored.
proof fn lemma_push_state(r: Seq<CellSet>, q: Seq<CellSet>, nc: CellSet, stored: Seq<CellSet>, stored2: Seq<CellSet>)
    requires
        distinct_sets(r + q),
        all_stored(r + q, stored),
        stored2.drop_last() == stored,
        stored2.len() == stored.len() + 1,
        stored2.last().same_members(&nc),
        forall|k: int| 0 <= k < stored.len() ==> !(#[trigger] stored[k]).same_members(&nc),
    ensures
        distinct_sets(r + q.push(nc)),
        all_stored(r + q.push(nc), stored2),
{
    let c = r + q;
    let c2 = r + q.push(nc);
    assert(c2 =~= c.push(nc));
    assert forall|i: int, j: int| #![trigger c2[i], c2[j]] 0 <= i < c2.len() && 0 <= j < c2.len() && i != j implies !c2[i].same_members(&c2[j]) by {
        if i == c.len() || j == c.len() {
            let o = if i == c.len() { j } else { i };
            assert(c2[o] == c[o]);
            assert(stored_like(stored, c[o]));
            let k = choose|k: int| 0 <= k < stored.len() && (#[trigger] stored[k]).same_members(&c[o]);
            if c2[i].same_members(&c2[j]) {
                lemma_same_members_trans(c2[i], c2[j], c2[j]);
                lemma_same_members_trans(stored[k], c2[o], nc);
                assert(stored[k].same_members(&nc));
            }
        } else {
            assert(c2[i] == c[i] && c2[j] == c[j]);
        }
    }
    assert forall|i: int| 0 <= i < c2.len() implies stored_like(stored2, #[trigger] c2[i]) by {
        if i == c.len() {
            assert(stored2[stored.len() as int] == stored2.last());
        } else {
            assert(c2[i] == c[i]);
            assert(stored_like(stored, c[i]));
            let k = choose|k: int| 0 <= k < stored.len() && (#[trigger] stored[k]).same_members(&c[i]);
            assert(stored2[k] == stored[k]);
        }
    }
}

/// Every region grown from `seed` through allowed cells, with no pre-drawn
/// boundary inside, in breadth-first order.  With several symbol types a
/// region is reported once it holds one cell of every type (a type never
/// occurs twice in a region); with one type every region is reported.
/// Growth stops at `MAX_CANDIDATE_CELLS` cells or the top of `size_window`,
/// and for a complete region in a wide window at its bottom; the search ends
/// at the deadline `timeout_ms` after `start` or at the result and state
/// caps.
pub fn generate_all_candidates(
    puzzle: &Puzzle,
    seed: usize,
    all_positions: &CellSet,
    pre: &PreBoundaries,
    symbol_of: &HashMap<usize, usize>,
    symbol_types: &[String],
    start: &Instant,
    timeout_ms: u64,
    size_window: (usize, usize),
) -> (results: Vec<CellSet>)
    requires
        puzzle.wf(),
        seed < puzzle.height * puzzle.width,
        puzzle.height * puzzle.width <= usize::MAX - 63,
        all_positions.wf(),
        puzzle.height * puzzle.width <= all_positions.nbits(),
        symbol_types@.len() < 64,
        forall|k: usize| #[trigger] symbol_of@.contains_key(k) ==> symbol_of@[k] < symbol_types@.len(),
    ensures
        results@.len() <= CANDIDATE_CAP,
        distinct_sets(results@),
        forall|i: int| 0 <= i < results@.len() ==> (#[trigger] results@[i]).elems().len() <= candidate_size_cap(size_window.1),
        forall|i: int|
            0 <= i < results@.len() ==> {
                let r = #[trigger] results@[i];
                &&& r.wf()
                &&& r.has(seed as int)
                &&& connected_from(puzzle.height as int, puzzle.width as int, *pre, r, seed as int)
                &&& forall|x: int| #[trigger] r.has(x) ==> 0 <= x < puzzle.height * puzzle.width && (x == seed || all_positions.has(x))
                &&& forall|a: int, b: int|
                    #![trigger r.has(a), r.has(b)]
                    r.has(a) && r.has(b) && flat_neighbours(puzzle.height as int, puzzle.width as int, a, b) ==> !pre_separates(*pre, puzzle.width as int, a, b)
                &&& symbol_types@.len() >= 2 ==> forall|t: int| 0 <= t < symbol_types@.len() ==> #[trigger] has_type(r, symbol_of@, t)
                &&& symbol_types@.len() >= 2 ==> forall|a: int, b: int|
                    #![trigger r.has(a), r.has(b)]
                    r.has(a) && r.has(b) && a != b && sym_of(symbol_of@, a) is Some ==> sym_of(symbol_of@, a) != sym_of(symbol_of@, b)
            },
{
    broadcast use vstd::std_specs::hash::group_hash_axioms;

    let h = puzzle.height;
    let w = puzzle.width;
    let n_bits = h * w;
    let deadline = checked_deadline(start, millis(timeout_ms));
    let is_multi = symbol_types.len() >= 2;
    let ntypes = symbol_types.len() as u64;
    proof {
        assert((1u64 << ntypes) >= 1) by (bit_vector)
            requires
                ntypes < 64,
        ;
    }
    let all_required: u64 = if is_multi {
        (1u64 << ntypes) - 1
    } else {
        0
    };
    let mut visited = Visited::new();
    let mut results: Vec<CellSet> = Vec::new();
    let mut initial = CellSet::new(n_bits);
    let ghost nb = initial.nbits();
    let ghost empty = initial;
    initial.insert(seed);
    proof {
        lemma_elems_one_more(initial, empty, seed as int, initial.nbits() as int);
        lemma_elems_one_more(empty, empty, -1, empty.nbits() as int);
        assert(forall|x: int| !empty.has(x));
        assert(empty.elems_upto(empty.nbits() as int).len() == 0) by {
            empty.lemma_elems(empty.nbits() as int);
            if empty.elems().len() > 0 {
                assert(empty.has(empty.elems()[0] as int));
            }
        }
    }
    visited.insert(initial.copy());
    let initial_frontier = seed_initial_frontier(seed, all_positions, pre, h, w);
    let initial_syms: u64 = match symbol_of.get(&seed) {
        Some(ti) => 1u64 << *ti as u64,
        None => 0,
    };
    proof {
        let sd = seed as int;
        assert(initial_frontier.nbits() >= n_bits);
        assert forall|a: int, b: int|
            #![trigger initial.has(a), initial.has(b)]
            initial.has(a) && initial.has(b) && flat_neighbours(h as int, w as int, a, b) implies !pre_separates(*pre, w as int, a, b) by {
            assert(a == sd && b == sd);
        }
        if is_multi {
            assert forall|t: u64| t < 64 implies (#[trigger] mask_bit(initial_syms, t) <==> exists|x: int| #![trigger initial.has(x)] initial.has(x) && sym_of(symbol_of@, x) == Some(t as usize)) by {
                if symbol_of@.contains_key(seed) {
                    lemma_mask_single(symbol_of@[seed] as u64, t);
                    if t == symbol_of@[seed] as u64 {
                        assert(initial.has(sd));
                    }
                } else {
                    lemma_mask_single(0, t);
                }
                if exists|x: int| #![trigger initial.has(x)] initial.has(x) && sym_of(symbol_of@, x) == Some(t as usize) {
                    let x = choose|x: int| #![trigger initial.has(x)] initial.has(x) && sym_of(symbol_of@, x) == Some(t as usize);
                    assert(x == sd);
                }
            }
        }
    }
    proof {
        let sd = seed as int;
        assert forall|f: int| #[trigger] initial_frontier.has(f) implies exists|y: int|
            #![trigger initial.has(y)]
            initial.has(y) && flat_neighbours(h as int, w as int, y, f) && !pre_separates(*pre, w as int, y, f) by {
            assert(initial.has(sd));
        }
        assert forall|x: int| #[trigger] initial.has(x) implies linked(h as int, w as int, *pre, initial, sd, x) by {
            let p = seq![sd];
            assert(walk_in(h as int, w as int, *pre, initial, p));
        }
        assert(region_state_ok(h as int, w as int, seed as int, *all_positions, *pre, symbol_of@, is_multi, nb, initial, initial_frontier, initial_syms));
    }
    let mut queue: VecDeque<(CellSet, CellSet, u64)> = VecDeque::new();
    queue.push_back((initial, initial_frontier, initial_syms));
    proof {
        let c0 = results@ + queued_sets(queue@);
        assert(c0 =~= seq![initial]);
        assert(visited.stored()[0].same_members(&initial));
        assert(stored_like(visited.stored(), c0[0]));
    }
    let (useful_min, useful_max) = size_window;
    while queue.len() > 0
        invariant
            puzzle.wf(),
            h == puzzle.height,
            w == puzzle.width,
            n_bits == h * w,
            n_bits <= nb,
            nb <= usize::MAX,
            seed < n_bits,
            h * w <= all_positions.nbits(),
            is_multi == (symbol_types@.len() >= 2),
            symbol_types@.len() < 64,
            ntypes == symbol_types@.len(),
            is_multi ==> all_required == ((1u64 << ntypes) - 1) as u64,
            forall|k: usize| #[trigger] symbol_of@.contains_key(k) ==> symbol_of@[k] < symbol_types@.len(),
            results@.len() <= CANDIDATE_CAP,
            distinct_sets(results@ + queued_sets(queue@)),
            all_stored(results@ + queued_sets(queue@), visited.stored()),
            size_window.1 == useful_max,
            forall|i: int| 0 <= i < results@.len() ==> (#[trigger] results@[i]).elems().len() <= candidate_size_cap(useful_max),
            forall|i: int| 0 <= i < queue@.len() ==> (#[trigger] queue@[i]).0.elems().len() <= candidate_size_cap(useful_max),
            visited.wf(nb),
            forall|i: int|
                0 <= i < queue@.len() ==> region_state_ok(h as int, w as int, seed as int, *all_positions, *pre, symbol_of@, is_multi, nb, (#[trigger] queue@[i]).0, queue@[i].1, queue@[i].2),
            forall|i: int|
                0 <= i < results@.len() ==> {
                    let r = #[trigger] results@[i];
                    &&& r.wf()
                    &&& r.has(seed as int)
                    &&& connected_from(h as int, w as int, *pre, r, seed as int)
                    &&& forall|x: int| #[trigger] r.has(x) ==> 0 <= x < h * w && (x == seed || all_positions.has(x))
                    &&& forall|a: int, b: int|
                        #![trigger r.has(a), r.has(b)]
                        r.has(a) && r.has(b) && flat_neighbours(h as int, w as int, a, b) ==> !pre_separates(*pre, w as int, a, b)
                    &&& is_multi ==> forall|t: int| 0 <= t < symbol_types@.len() ==> #[trigger] has_type(r, symbol_of@, t)
                    &&& is_multi ==> forall|a: int, b: int|
                        #![trigger r.has(a), r.has(b)]
                        r.has(a) && r.has(b) && a != b && sym_of(symbol_of@, a) is Some ==> sym_of(symbol_of@, a) != sym_of(symbol_of@, b)
                },
        decreases (if visited.len_spec() < VISITED_CAP { VISITED_CAP - visited.len_spec() } else { 0 }), queue@.len(),
    {
        let ghost qb = queue@;
        let ghost rb = results@;
        let (current, frontier, syms) = match queue.pop_front() {
            Some(t) => t,
            None => {
                break;
            },
        };
        proof {
            assert(queued_sets(queue@) =~= queued_sets(qb).drop_first());
            assert(queued_sets(qb)[0] == current);
            lemma_same_members_trans(current, current, current);
            lemma_pop_state(rb, queued_sets(qb), current, false, visited.stored());
        }
        proof {
            assert(region_state_ok(h as int, w as int, seed as int, *all_positions, *pre, symbol_of@, is_multi, nb, current, frontier, syms));
        }
        if deadline_passed(&deadline) {
            break;
        }
        if results.len() >= CANDIDATE_CAP {
            break;
        }
        if visited.len() >= VISITED_CAP {
            break;
        }
        let complete_multi = is_multi && syms == all_required;
        if complete_multi || !is_multi {
            let snapshot = current.copy();
            proof {
                lemma_connected_same(h as int, w as int, *pre, current, snapshot, seed as int);
                if is_multi {
                    assert forall|t: int| 0 <= t < symbol_types@.len() implies #[trigger] has_type(snapshot, symbol_of@, t) by {
                        lemma_mask_full(symbol_types@.len() as u64, t as u64);
                        assert(mask_bit(syms, t as u64));
                        let x = choose|x: int| #![trigger current.has(x)] current.has(x) && sym_of(symbol_of@, x) == Some((t as u64) as usize);
                        assert(snapshot.has(x));
                    }
                }
            }
            proof {
                lemma_pop_state(rb, queued_sets(qb), snapshot, true, visited.stored());
                lemma_elems_same(snapshot, current, snapshot.nbits() as int);
                assert(qb[0].0 == current);
            }
            results.push(snapshot);
        }
        let clen = current.len();
        if clen >= useful_max || clen >= MAX_CANDIDATE_CELLS {
            continue;
        }
        let grow_through = (if useful_max > useful_min {
            useful_max - useful_min
        } else {
            0
        }) <= WINDOW_GROW_LIMIT;
        if complete_multi && !grow_through && clen >= useful_min {
            continue;
        }
        let ghost vlen0 = visited.len_spec();
        let ghost qlen0 = queue@.len();
        let cells = frontier.iter();
        proof {
            frontier.lemma_elems(frontier.nbits() as int);
        }
        let mut k: usize = 0;
        while k < cells.len()
            invariant
                puzzle.wf(),
                h == puzzle.height,
                w == puzzle.width,
                n_bits == h * w,
                n_bits <= nb,
                nb <= usize::MAX,
                seed < n_bits,
                h * w <= all_positions.nbits(),
                forall|kk: usize| #[trigger] symbol_of@.contains_key(kk) ==> symbol_of@[kk] < symbol_types@.len(),
                symbol_types@.len() < 64,
                visited.wf(nb),
                region_state_ok(h as int, w as int, seed as int, *all_positions, *pre, symbol_of@, is_multi, nb, current, frontier, syms),
                cells@ == frontier.elems(),
                forall|j: int| 0 <= j < cells@.len() ==> frontier.has(#[trigger] cells@[j] as int),
                k <= cells@.len(),
                visited.len_spec() >= vlen0,
                queue@.len() == qlen0 + (visited.len_spec() - vlen0),
                distinct_sets(results@ + queued_sets(queue@)),
                all_stored(results@ + queued_sets(queue@), visited.stored()),
                results@.len() <= CANDIDATE_CAP,
                clen == current.elems().len(),
                clen < useful_max && clen < MAX_CANDIDATE_CELLS,
                forall|i: int| 0 <= i < results@.len() ==> (#[trigger] results@[i]).elems().len() <= candidate_size_cap(useful_max),
                forall|i: int| 0 <= i < queue@.len() ==> (#[trigger] queue@[i]).0.elems().len() <= candidate_size_cap(useful_max),
                forall|i: int|
                    0 <= i < queue@.len() ==> region_state_ok(h as int, w as int, seed as int, *all_positions, *pre, symbol_of@, is_multi, nb, (#[trigger] queue@[i]).0, queue@[i].1, queue@[i].2),
            decreases cells@.len() - k,
        {
            let cell = cells[k];
            let ghost sb = visited.stored();
            let r = process_frontier_cell(
                &current,
                &frontier,
                &mut visited,
                all_positions,
                cell,
                syms,
                is_multi,
                symbol_of,
                pre,
                h,
                w,
                Ghost(seed as int),
            );
            if let Some(triple) = r {
                let ghost q0 = queue@;
                proof {
                    let nc = triple.0;
                    assert(visited.stored().last().same_members(&nc));
                    assert forall|k: int| 0 <= k < sb.len() implies !(#[trigger] sb[k]).same_members(&nc) by {
                        if sb[k].same_members(&nc) {
                            assert(plus_cell(sb[k], current, cell as int));
                        }
                    }
                    lemma_push_state(results@, queued_sets(q0), nc, sb, visited.stored());
                }
                proof {
                    lemma_elems_one_more(triple.0, current, cell as int, triple.0.nbits() as int);
                    current.lemma_elems(current.nbits() as int);
                    triple.0.lemma_elems(triple.0.nbits() as int);
                    assert(current.nbits() == triple.0.nbits());
                }
                queue.push_back(triple);
                proof {
                    assert(queued_sets(queue@) =~= queued_sets(q0).push(triple.0));
                }
            }
            k = k + 1;
        }
    }
    proof {
        let c = results@ + queued_sets(queue@);
        assert forall|a: int, b: int| #![trigger results@[a], results@[b]] 0 <= a < results@.len() && 0 <= b < results@.len() && a != b implies !results@[a].same_members(&results@[b]) by {
            assert(c[a] == results@[a] && c[b] == results@[b]);
        }
    }
    results
}

} // verus!
