//! Rose-window growth and repair: regions are grown outward from the seed
//! symbols and then repaired by moving single cells across regions, never
//! across a pre-drawn boundary and never splitting the region a cell leaves.

use vstd::prelude::*;
use std::collections::{HashMap, VecDeque};
use std::time::Instant;
use crate::clock::deadline_passed;
use crate::reach::{
    lemma_marked_bound, lemma_search_done, lemma_search_mark, lemma_search_pop, lemma_search_settle,
    lemma_search_start, marked, reaches, search_ok,
};
use crate::pieces::neighbor_positions;
use crate::rose::cells::{CellSet, PreBoundaries, spec_decode_key, spec_edge_key};
use crate::rose::pin::{list_has, sort_indices};
use crate::rose::region_match::{mask_bit, sym_of};
use crate::types::Puzzle;
use crate::rose::{cell_type, symbol_index_map, type_position};
use crate::clock::{checked_deadline, millis};

verus! {

/// A step of the connectivity walk on a board `w` wide: up or down a row,
/// left within the row, or right to the next index (from the last column
/// that is the first cell of the next row).
pub open spec fn walk_step(w: int, x: int, y: int) -> bool {
    y >= 0 && (y == x - w || y == x + w || (y == x - 1 && x % w != 0) || y == x + 1)
}

/// Walk steps between members of `cells`.
pub open spec fn set_step(cells: CellSet, w: int) -> spec_fn(int, int) -> bool {
    |x: int, y: int| cells.has(x) && cells.has(y) && walk_step(w, x, y)
}

/// At most one member, or every member is reached from the smallest one by
/// walk steps through members.
pub open spec fn set_connected(cells: CellSet, w: int) -> bool {
    cells.elems().len() <= 1 || forall|x: int|
        #[trigger] cells.has(x) ==> reaches(set_step(cells, w), cells.elems()[0] as int, x)
}

/// Marks and queues `ni` when it is an unmarked member.
fn visit_member(cells: &CellSet, ni: usize, seen: &mut Vec<bool>, q: &mut VecDeque<usize>)
    requires
        ni < old(seen)@.len(),
        ni < cells.nbits(),
    ensures
        final(seen)@.len() == old(seen)@.len(),
        !old(seen)@[ni as int] && cells.has(ni as int) ==> final(seen)@ == old(seen)@.update(ni as int, true)
            && final(q)@ == old(q)@.push(ni),
        !(!old(seen)@[ni as int] && cells.has(ni as int)) ==> final(seen)@ == old(seen)@ && final(q)@ == old(q)@,
{
    if !seen[ni] && cells.contains(ni) {
        seen.set(ni, true);
        q.push_back(ni);
    }
}

proof fn lemma_members_len(cells: CellSet)
    requires
        cells.wf(),
    ensures
        cells.elems().to_set().len() == cells.elems().len(),
        forall|x: usize| #[trigger] cells.elems().to_set().contains(x) <==> cells.has(x as int),
{
    cells.lemma_elems(cells.nbits() as int);
    cells.lemma_wf_bits();
    let e = cells.elems();
    assert(e.no_duplicates()) by {
        assert forall|i: int, j: int| 0 <= i < e.len() && 0 <= j < e.len() && i != j implies e[i] != e[j] by {
            if i < j {
                assert(e[i] < e[j]);
            } else {
                assert(e[j] < e[i]);
            }
        }
    }
    e.unique_seq_to_set();
    assert forall|x: usize| #[trigger] e.to_set().contains(x) <==> cells.has(x as int) by {
        if cells.has(x as int) {
            cells.lemma_has_range(x as int);
        }
    }
}

/// Whether the set is connected under walk steps (see `set_connected`).
#[verifier::rlimit(50)]
pub fn is_connected_set(cells: &CellSet, w: usize) -> (r: bool)
    requires
        cells.wf(),
        w > 0,
    ensures
        r == set_connected(*cells, w as int),
{
    let n = cells.len();
    if n <= 1 {
        return true;
    }
    let items = cells.iter();
    proof {
        cells.lemma_elems(cells.nbits() as int);
        cells.lemma_wf_bits();
        lemma_members_len(*cells);
    }
    let ghost adj = set_step(*cells, w as int);
    let mut max_idx: usize = 0;
    let mut i: usize = 0;
    while i < items.len()
        invariant
            items@ == cells.elems(),
            i <= items@.len(),
            forall|j: int| 0 <= j < items@.len() ==> cells.has(#[trigger] items@[j] as int) && items@[j] < cells.nbits(),
            forall|j: int| 0 <= j < i ==> #[trigger] items@[j] <= max_idx,
            max_idx < cells.nbits(),
        decreases items@.len() - i,
    {
        if items[i] > max_idx {
            max_idx = items[i];
        }
        i = i + 1;
    }
    proof {
        assert forall|x: int| #[trigger] cells.has(x) implies 0 <= x <= max_idx by {
            cells.lemma_has_range(x);
            assert(cells.elems().contains(x as usize));
        }
    }
    let mut seen: Vec<bool> = vec![false; max_idx + 1];
    let start = items[0];
    seen.set(start, true);
    let mut q: VecDeque<usize> = VecDeque::new();
    q.push_back(start);
    let mut reached: usize = 0;
    proof {
        lemma_search_start(adj, start as int, seen@);
        assert(q@ == seq![start]);
    }
    loop
        invariant
            cells.wf(),
            w > 0,
            adj == set_step(*cells, w as int),
            cells.nbits() <= usize::MAX,
            max_idx < cells.nbits(),
            forall|x: int| #[trigger] cells.has(x) ==> 0 <= x <= max_idx,
            seen@.len() == max_idx + 1,
            start == cells.elems()[0],
            search_ok(adj, start as int, seen@, q@, reached as int, -1),
            forall|x: int| 0 <= x < seen@.len() && seen@[x] ==> cells.has(x),
        ensures
            q@.len() == 0,
        decreases 2 * (seen@.len() - marked(seen@).len()) + q@.len(),
    {
        let ghost q0 = q@;
        let ghost s0 = seen@;
        proof {
            lemma_marked_bound(seen@);
        }
        match q.pop_front() {
            None => {
                break;
            },
            Some(cur) => {
                proof {
                    lemma_search_pop(adj, start as int, seen@, q0, reached as int, 0);
                    assert(q0.remove(0) == q@);
                }
                reached = reached + 1;
                let r = cur / w;
                let c = cur % w;
                let ghost p = cur as int;
                proof {
                    assert(cells.has(p));
                }
                if r >= 1 {
                    proof {
                        assert(cur >= w) by (nonlinear_arith)
                            requires
                                r == cur / w,
                                r >= 1,
                                w > 0,
                        ;
                    }
                    let ni = cur - w;
                    let ghost sb = seen@;
                    let ghost qb = q@;
                    visit_member(cells, ni, &mut seen, &mut q);
                    proof {
                        if seen@ != sb {
                            lemma_search_mark(adj, start as int, sb, qb, reached as int, p, ni as int);
                        }
                    }
                }
                if cur <= max_idx && w <= max_idx - cur {
                    let ni = cur + w;
                    let ghost sb = seen@;
                    let ghost qb = q@;
                    visit_member(cells, ni, &mut seen, &mut q);
                    proof {
                        if seen@ != sb {
                            lemma_search_mark(adj, start as int, sb, qb, reached as int, p, ni as int);
                        }
                    }
                }
                if c >= 1 {
                    proof {
                        if cur == 0 {
                            assert(0usize % w == 0);
                        }
                    }
                    let ni = cur - 1;
                    let ghost sb = seen@;
                    let ghost qb = q@;
                    visit_member(cells, ni, &mut seen, &mut q);
                    proof {
                        if seen@ != sb {
                            lemma_search_mark(adj, start as int, sb, qb, reached as int, p, ni as int);
                        }
                    }
                }
                if cur < max_idx {
                    let ni = cur + 1;
                    let ghost sb = seen@;
                    let ghost qb = q@;
                    visit_member(cells, ni, &mut seen, &mut q);
                    proof {
                        if seen@ != sb {
                            lemma_search_mark(adj, start as int, sb, qb, reached as int, p, ni as int);
                        }
                    }
                }
                proof {
                    assert forall|y: int| #[trigger] adj(p, y) implies 0 <= y < seen@.len() && seen@[y] by {
                        if y == p - w as int {
                            assert(cur / w >= 1) by (nonlinear_arith)
                                requires
                                    cur >= w,
                                    w > 0,
                            ;
                        }
                    }
                    lemma_search_settle(adj, start as int, seen@, q@, reached as int, p);
                    lemma_marked_bound(seen@);
                }
            },
        }
    }
    proof {
        assert(q@ =~= Seq::<usize>::empty());
        lemma_search_done(adj, start as int, seen@, reached as int);
        let m = cells.elems().to_set();
        assert(marked(seen@).subset_of(m));
        if reached == n {
            vstd::set_lib::lemma_subset_equality(marked(seen@), m);
            assert forall|x: int| #[trigger] cells.has(x) implies reaches(adj, start as int, x) by {
                assert(m.contains(x as usize));
                assert(marked(seen@).contains(x as usize));
            }
        }
        if set_connected(*cells, w as int) {
            assert(m.subset_of(marked(seen@))) by {
                assert forall|x: usize| m.contains(x) implies marked(seen@).contains(x) by {
                    assert(cells.has(x as int));
                    assert(reaches(adj, start as int, x as int));
                }
            }
            assert(marked(seen@) =~= m);
        }
    }
    reached == n
}


/// Walk steps between cells that `region_of` assigns to `rid`.
pub open spec fn region_step(region_of: Seq<Option<usize>>, rid: usize, w: int) -> spec_fn(int, int) -> bool {
    |x: int, y: int|
        0 <= x < region_of.len() && 0 <= y < region_of.len() && region_of[x] == Some(rid) && region_of[y]
            == Some(rid) && walk_step(w, x, y)
}

/// Which cells belong to `rid`.
pub open spec fn member_flags(region_of: Seq<Option<usize>>, rid: usize) -> Seq<bool> {
    Seq::new(region_of.len(), |i: int| region_of[i] == Some(rid))
}

/// `i` is the smallest cell of `rid`.
pub open spec fn first_member(region_of: Seq<Option<usize>>, rid: usize, i: int) -> bool {
    0 <= i < region_of.len() && region_of[i] == Some(rid) && forall|j: int| 0 <= j < i ==> region_of[j] != Some(rid)
}

/// At most one cell of `rid`, or every cell of `rid` is reached from its
/// smallest one by walk steps through its cells.
pub open spec fn region_connected(region_of: Seq<Option<usize>>, rid: usize, w: int) -> bool {
    marked(member_flags(region_of, rid)).len() <= 1 || forall|i: int, x: int|
        #[trigger] first_member(region_of, rid, i) && 0 <= x < region_of.len() && region_of[x] == Some(rid)
            ==> #[trigger] reaches(region_step(region_of, rid, w), i, x)
}

/// Marks and queues `ni` when it is an unmarked cell of `rid`.
fn visit_region_cell(region_of: &[Option<usize>], rid: usize, ni: usize, seen: &mut Vec<bool>, q: &mut VecDeque<usize>)
    requires
        ni < old(seen)@.len(),
        old(seen)@.len() == region_of@.len(),
    ensures
        final(seen)@.len() == old(seen)@.len(),
        !old(seen)@[ni as int] && region_of@[ni as int] == Some(rid) ==> final(seen)@ == old(seen)@.update(
            ni as int,
            true,
        ) && final(q)@ == old(q)@.push(ni),
        !(!old(seen)@[ni as int] && region_of@[ni as int] == Some(rid)) ==> final(seen)@ == old(seen)@
            && final(q)@ == old(q)@,
{
    if !seen[ni] && region_of[ni] == Some(rid) {
        seen.set(ni, true);
        q.push_back(ni);
    }
}

/// Whether the cells of `rid` are connected under walk steps (see
/// `region_connected`).
#[verifier::rlimit(50)]
pub fn is_region_connected(region_of: &[Option<usize>], rid: usize, w: usize) -> (r: bool)
    requires
        w > 0,
    ensures
        r == region_connected(region_of@, rid, w as int),
{
    let ghost flags = member_flags(region_of@, rid);
    let mut start: Option<usize> = None;
    let mut count: usize = 0;
    let mut i: usize = 0;
    proof {
        assert(marked(flags.take(0)) =~= Set::<usize>::empty());
    }
    while i < region_of.len()
        invariant
            flags == member_flags(region_of@, rid),
            i <= region_of@.len(),
            count == marked(flags.take(i as int)).len(),
            count <= i,
            start is None ==> count == 0,
            match start {
                None => forall|j: int| 0 <= j < i ==> region_of@[j] != Some(rid),
                Some(s) => first_member(region_of@, rid, s as int) && s < i,
            },
        decreases region_of@.len() - i,
    {
        let ghost before = flags.take(i as int);
        proof {
            lemma_marked_bound(before);
            assert(flags.take(i + 1) == before.push(flags[i as int]));
            if flags[i as int] {
                assert(marked(flags.take(i + 1)) =~= marked(before).insert(i));
                assert(!marked(before).contains(i));
            } else {
                assert(marked(flags.take(i + 1)) =~= marked(before));
            }
        }
        if region_of[i] == Some(rid) {
            count = count + 1;
            if start.is_none() {
                start = Some(i);
            }
        }
        i = i + 1;
    }
    proof {
        assert(flags.take(i as int) == flags);
    }
    if count <= 1 {
        return true;
    }
    let start = start.unwrap();
    let n = region_of.len();
    let ghost adj = region_step(region_of@, rid, w as int);
    let mut seen: Vec<bool> = vec![false; n];
    seen.set(start, true);
    let mut q: VecDeque<usize> = VecDeque::new();
    q.push_back(start);
    let mut reached: usize = 0;
    proof {
        lemma_search_start(adj, start as int, seen@);
        assert(q@ == seq![start]);
    }
    loop
        invariant
            w > 0,
            n == region_of@.len(),
            adj == region_step(region_of@, rid, w as int),
            flags == member_flags(region_of@, rid),
            count == marked(flags).len(),
            first_member(region_of@, rid, start as int),
            seen@.len() == n,
            search_ok(adj, start as int, seen@, q@, reached as int, -1),
            forall|x: int| 0 <= x < seen@.len() && seen@[x] ==> region_of@[x] == Some(rid),
        ensures
            q@.len() == 0,
        decreases 2 * (seen@.len() - marked(seen@).len()) + q@.len(),
    {
        let ghost q0 = q@;
        proof {
            lemma_marked_bound(seen@);
        }
        match q.pop_front() {
            None => {
                break;
            },
            Some(cur) => {
                proof {
                    lemma_search_pop(adj, start as int, seen@, q0, reached as int, 0);
                    assert(q0.remove(0) == q@);
                }
                reached = reached + 1;
                let r = cur / w;
                let c = cur % w;
                let ghost p = cur as int;
                if r >= 1 {
                    proof {
                        assert(cur >= w) by (nonlinear_arith)
                            requires
                                r == cur / w,
                                r >= 1,
                                w > 0,
                        ;
                    }
                    let ni = cur - w;
                    let ghost sb = seen@;
                    let ghost qb = q@;
                    visit_region_cell(region_of, rid, ni, &mut seen, &mut q);
                    proof {
                        if seen@ != sb {
                            lemma_search_mark(adj, start as int, sb, qb, reached as int, p, ni as int);
                        }
                    }
                }
                if w < n - cur {
                    let ni = cur + w;
                    let ghost sb = seen@;
                    let ghost qb = q@;
                    visit_region_cell(region_of, rid, ni, &mut seen, &mut q);
                    proof {
                        if seen@ != sb {
                            lemma_search_mark(adj, start as int, sb, qb, reached as int, p, ni as int);
                        }
                    }
                }
                if c >= 1 {
                    proof {
                        if cur == 0 {
                            assert(0usize % w == 0);
                        }
                    }
                    let ni = cur - 1;
                    let ghost sb = seen@;
                    let ghost qb = q@;
                    visit_region_cell(region_of, rid, ni, &mut seen, &mut q);
                    proof {
                        if seen@ != sb {
                            lemma_search_mark(adj, start as int, sb, qb, reached as int, p, ni as int);
                        }
                    }
                }
                if cur + 1 < n {
                    let ni = cur + 1;
                    let ghost sb = seen@;
                    let ghost qb = q@;
                    visit_region_cell(region_of, rid, ni, &mut seen, &mut q);
                    proof {
                        if seen@ != sb {
                            lemma_search_mark(adj, start as int, sb, qb, reached as int, p, ni as int);
                        }
                    }
                }
                proof {
                    assert forall|y: int| #[trigger] adj(p, y) implies 0 <= y < seen@.len() && seen@[y] by {
                        if y == p - w as int {
                            assert(cur / w >= 1) by (nonlinear_arith)
                                requires
                                    cur >= w,
                                    w > 0,
                            ;
                        }
                    }
                    lemma_search_settle(adj, start as int, seen@, q@, reached as int, p);
                    lemma_marked_bound(seen@);
                }
            },
        }
    }
    proof {
        assert(q@ =~= Seq::<usize>::empty());
        lemma_search_done(adj, start as int, seen@, reached as int);
        lemma_marked_bound(flags);
        let m = marked(flags);
        assert(marked(seen@).subset_of(m));
        if reached == count {
            vstd::set_lib::lemma_subset_equality(marked(seen@), m);
            assert forall|i: int, x: int|
                #[trigger] first_member(region_of@, rid, i) && 0 <= x < region_of@.len() && region_of@[x] == Some(rid)
                    implies #[trigger] reaches(adj, i, x) by {
                if i != start as int {
                    if i < start {
                        assert(region_of@[i] != Some(rid));
                    } else {
                        assert(region_of@[start as int] != Some(rid));
                    }
                }
                assert(m.contains(x as usize));
                assert(marked(seen@).contains(x as usize));
            }
        }
        if region_connected(region_of@, rid, w as int) {
            assert forall|x: usize| m.contains(x) implies marked(seen@).contains(x) by {
                assert(first_member(region_of@, rid, start as int));
                assert(reaches(adj, start as int, x as int));
            }
            assert(marked(seen@) =~= m);
        }
    }
    reached == count
}


/// `(nr, nc)` is a side neighbour of `(r, c)` on an `h` by `w` board.
pub open spec fn side_neighbour(h: int, w: int, r: int, c: int, nr: int, nc: int) -> bool {
    &&& 0 <= nr < h && 0 <= nc < w
    &&& (nr == r && (nc + 1 == c || c + 1 == nc)) || (nc == c && (nr + 1 == r || r + 1 == nr))
}

/// Some side neighbour of `(r, c)`, other than the flat cell `skip`, lies in
/// region `rid` behind a pre-drawn boundary.
pub open spec fn walled_in(
    region_of: Seq<Option<usize>>,
    pre: PreBoundaries,
    rid: usize,
    r: int,
    c: int,
    skip: int,
    h: int,
    w: int,
) -> bool {
    exists|nr: int, nc: int|
        #[trigger] side_neighbour(h, w, r, c, nr, nc) && nr * w + nc != skip && region_of[nr * w + nc] == Some(
            rid,
        ) && pre@.contains(spec_edge_key(r as usize, c as usize, nr as usize, nc as usize))
}

/// Region `rid` holds a side neighbour of `(r, c)` with no pre-drawn
/// boundary between them.
pub open spec fn open_to(region_of: Seq<Option<usize>>, pre: PreBoundaries, rid: usize, r: int, c: int, h: int, w: int) -> bool {
    exists|nr: int, nc: int|
        #[trigger] side_neighbour(h, w, r, c, nr, nc) && region_of[nr * w + nc] == Some(rid) && !pre@.contains(
            spec_edge_key(r as usize, c as usize, nr as usize, nc as usize),
        )
}

/// Whether some side neighbour of `(r, c)` other than `skip` lies in region
/// `rid` behind a pre-drawn boundary.
fn walled_neighbour(
    region_of: &[Option<usize>],
    pre: &PreBoundaries,
    rid: usize,
    r: usize,
    c: usize,
    skip: Option<usize>,
    h: usize,
    w: usize,
) -> (b: bool)
    requires
        r < h,
        c < w,
        h * w <= region_of@.len(),
    ensures
        b == walled_in(region_of@, *pre, rid, r as int, c as int, match skip {
            Some(s) => s as int,
            None => -1,
        }, h as int, w as int),
{
    let ghost sk: int = match skip {
        Some(s) => s as int,
        None => -1,
    };
    let len = region_of.len();
    let nbrs = neighbor_positions(r, c, h, w);
    let mut t: usize = 0;
    while t < nbrs.len()
        invariant
            r < h,
            c < w,
            h * w <= region_of@.len(),
            len == region_of@.len(),
            sk == match skip {
                Some(s) => s as int,
                None => -1,
            },
            t <= nbrs@.len(),
            forall|i: int|
                0 <= i < nbrs@.len() ==> {
                    let (nr, nc) = #[trigger] nbrs@[i];
                    &&& nr < h && nc < w
                    &&& (nr == r && (nc + 1 == c || c + 1 == nc)) || (nc == c && (nr + 1 == r || r + 1 == nr))
                },
            forall|nr: usize, nc: usize|
                nr < h && nc < w && ((nr == r && (nc + 1 == c || c + 1 == nc)) || (nc == c && (nr + 1 == r || r
                    + 1 == nr))) ==> #[trigger] nbrs@.contains((nr, nc)),
            forall|i: int|
                0 <= i < t ==> {
                    let (nr, nc) = #[trigger] nbrs@[i];
                    !(nr * w + nc != sk && region_of@[nr * w + nc] == Some(rid) && pre@.contains(
                        spec_edge_key(r, c, nr, nc),
                    ))
                },
        decreases nbrs@.len() - t,
    {
        let (nr, nc) = nbrs[t];
        proof {
            crate::edge_csp::grid::lemma_cell_id_bound(h as int, w as int, nr as int, nc as int);
        }
        let nidx = nr * w + nc;
        let skipped = match skip {
            Some(s) => nidx == s,
            None => false,
        };
        if !skipped && region_of[nidx] == Some(rid) && pre.contains(r, c, nr, nc) {
            proof {
                assert(side_neighbour(h as int, w as int, r as int, c as int, nr as int, nc as int));
            }
            return true;
        }
        t = t + 1;
    }
    proof {
        assert forall|nr: int, nc: int| #[trigger] side_neighbour(h as int, w as int, r as int, c as int, nr, nc) implies !(nr
            * w + nc != sk && region_of@[nr * w + nc] == Some(rid) && pre@.contains(
            spec_edge_key(r as usize, c as usize, nr as usize, nc as usize),
        )) by {
            assert(nbrs@.contains((nr as usize, nc as usize)));
            let i = choose|i: int| 0 <= i < nbrs@.len() && nbrs@[i] == (nr as usize, nc as usize);
            assert(nbrs@[i] == (nr as usize, nc as usize));
        }
    }
    false
}

/// Whether some side neighbour of `(r, c)` lies in region `rid` behind a
/// pre-drawn boundary, so that adding `(r, c)` to `rid` would straddle it.
pub fn has_pre_neighbor_in(
    region_of: &[Option<usize>],
    pre: &PreBoundaries,
    rid: usize,
    r: usize,
    c: usize,
    h: usize,
    w: usize,
) -> (b: bool)
    requires
        r < h,
        c < w,
        h * w <= region_of@.len(),
    ensures
        b == walled_in(region_of@, *pre, rid, r as int, c as int, -1, h as int, w as int),
{
    walled_neighbour(region_of, pre, rid, r, c, None, h, w)
}

/// As `has_pre_neighbor_in`, on a board as tall as `region_of` holds full
/// rows of width `w`.
pub fn would_violate(region_of: &[Option<usize>], r: usize, c: usize, rid: usize, pre: &PreBoundaries, w: usize) -> (b: bool)
    requires
        w > 0,
        r < (region_of@.len() as int) / (w as int),
        c < w,
    ensures
        b == walled_in(region_of@, *pre, rid, r as int, c as int, -1, (region_of@.len() as int) / (w as int), w as int),
{
    let h = region_of.len() / w;
    proof {
        assert(h * w <= region_of@.len()) by (nonlinear_arith)
            requires
                h == (region_of@.len() as int) / (w as int),
                w > 0,
        ;
    }
    walled_neighbour(region_of, pre, rid, r, c, None, h, w)
}

/// Whether attaching `(nru, ncu)` to region `rid` would fuse it with a
/// neighbour that a pre-drawn boundary keeps apart.
pub fn boundary_in_same_region(
    region_of: &[Option<usize>],
    pre: &PreBoundaries,
    nru: usize,
    ncu: usize,
    rid: usize,
    h: usize,
    w: usize,
) -> (b: bool)
    requires
        nru < h,
        ncu < w,
        h * w <= region_of@.len(),
    ensures
        b == walled_in(region_of@, *pre, rid, nru as int, ncu as int, -1, h as int, w as int),
{
    walled_neighbour(region_of, pre, rid, nru, ncu, None, h, w)
}

/// Whether moving `(cell_r, cell_c)` into region `nrid` would straddle a
/// pre-drawn boundary.
pub fn repair_move_conflicts(
    region_of: &[Option<usize>],
    pre: &PreBoundaries,
    cell_r: usize,
    cell_c: usize,
    nrid: usize,
    h: usize,
    w: usize,
) -> (b: bool)
    requires
        cell_r < h,
        cell_c < w,
        h * w <= region_of@.len(),
    ensures
        b == walled_in(region_of@, *pre, nrid, cell_r as int, cell_c as int, -1, h as int, w as int),
{
    walled_neighbour(region_of, pre, nrid, cell_r, cell_c, None, h, w)
}

/// The neighbour half of a swap: no neighbour of `(nru, ncu)` other than the
/// cell `(cell_r, cell_c)` lies in region `cur` behind a pre-drawn boundary.
pub fn can_move_neighbor(
    region_of: &[Option<usize>],
    pre: &PreBoundaries,
    cur: usize,
    cell_r: usize,
    cell_c: usize,
    nru: usize,
    ncu: usize,
    h: usize,
    w: usize,
) -> (b: bool)
    requires
        nru < h,
        ncu < w,
        cell_r < h,
        cell_c < w,
        h * w <= region_of@.len(),
    ensures
        b == !walled_in(region_of@, *pre, cur, nru as int, ncu as int, cell_r * w + cell_c, h as int, w as int),
{
    let len = region_of.len();
    proof {
        crate::edge_csp::grid::lemma_cell_id_bound(h as int, w as int, cell_r as int, cell_c as int);
    }
    !walled_neighbour(region_of, pre, cur, nru, ncu, Some(cell_r * w + cell_c), h, w)
}

/// The cell half of a swap: no neighbour of `(cell_r, cell_c)` other than
/// the swap partner `nidx` lies in region `n_rid` behind a pre-drawn
/// boundary.
pub fn can_move_self(
    region_of: &[Option<usize>],
    pre: &PreBoundaries,
    n_rid: usize,
    nidx: usize,
    cell_r: usize,
    cell_c: usize,
    h: usize,
    w: usize,
) -> (b: bool)
    requires
        cell_r < h,
        cell_c < w,
        h * w <= region_of@.len(),
    ensures
        b == !walled_in(region_of@, *pre, n_rid, cell_r as int, cell_c as int, nidx as int, h as int, w as int),
{
    !walled_neighbour(region_of, pre, n_rid, cell_r, cell_c, Some(nidx), h, w)
}


/// The distinct regions, other than `exclude`, holding a side neighbour of
/// `(r, c)` with no pre-drawn boundary between, in up, down, left, right
/// order of first appearance.
fn open_regions(
    region_of: &[Option<usize>],
    pre: &PreBoundaries,
    r: usize,
    c: usize,
    exclude: Option<usize>,
    h: usize,
    w: usize,
) -> (out: Vec<usize>)
    requires
        r < h,
        c < w,
        h * w <= region_of@.len(),
    ensures
        out@.no_duplicates(),
        forall|rid: usize|
            #[trigger] out@.contains(rid) <==> (open_to(region_of@, *pre, rid, r as int, c as int, h as int, w as int)
                && exclude != Some(rid)),
{
    let len = region_of.len();
    let nbrs = neighbor_positions(r, c, h, w);
    let mut out: Vec<usize> = Vec::new();
    let mut t: usize = 0;
    while t < nbrs.len()
        invariant
            r < h,
            c < w,
            h * w <= region_of@.len(),
            len == region_of@.len(),
            t <= nbrs@.len(),
            forall|i: int|
                0 <= i < nbrs@.len() ==> {
                    let (nr, nc) = #[trigger] nbrs@[i];
                    &&& nr < h && nc < w
                    &&& (nr == r && (nc + 1 == c || c + 1 == nc)) || (nc == c && (nr + 1 == r || r + 1 == nr))
                },
            forall|nr: usize, nc: usize|
                nr < h && nc < w && ((nr == r && (nc + 1 == c || c + 1 == nc)) || (nc == c && (nr + 1 == r || r
                    + 1 == nr))) ==> #[trigger] nbrs@.contains((nr, nc)),
            out@.no_duplicates(),
            forall|rid: usize|
                #[trigger] out@.contains(rid) <==> (exclude != Some(rid) && exists|i: int|
                    0 <= i < t && region_of@[(#[trigger] nbrs@[i]).0 * w + nbrs@[i].1] == Some(rid) && !pre@.contains(
                        spec_edge_key(r, c, nbrs@[i].0, nbrs@[i].1),
                    )),
        decreases nbrs@.len() - t,
    {
        let (nr, nc) = nbrs[t];
        proof {
            crate::edge_csp::grid::lemma_cell_id_bound(h as int, w as int, nr as int, nc as int);
        }
        let nidx = nr * w + nc;
        let ghost before = out@;
        if let Some(nrid) = region_of[nidx] {
            if !pre.contains(r, c, nr, nc) && exclude != Some(nrid) {
                if !list_has(&out, nrid) {
                    out.push(nrid);
                }
            }
        }
        proof {
            assert forall|a: int, b: int| 0 <= a < out@.len() && 0 <= b < out@.len() && a != b implies out@[a] != out@[b] by {
                if a < before.len() && b < before.len() {
                    assert(out@[a] == before[a] && out@[b] == before[b]);
                } else if a < before.len() {
                    assert(before.contains(out@[a]));
                } else if b < before.len() {
                    assert(before.contains(out@[b]));
                }
            }
            assert forall|rid: usize| #[trigger] out@.contains(rid) <==> (exclude != Some(rid) && exists|i: int|
                0 <= i < t + 1 && region_of@[(#[trigger] nbrs@[i]).0 * w + nbrs@[i].1] == Some(rid) && !pre@.contains(
                    spec_edge_key(r, c, nbrs@[i].0, nbrs@[i].1),
                )) by {
                if out@.contains(rid) {
                    let j = choose|j: int| 0 <= j < out@.len() && out@[j] == rid;
                    if j < before.len() {
                        assert(before[j] == rid);
                        assert(before.contains(rid));
                    }
                }
                if before.contains(rid) {
                    let j = choose|j: int| 0 <= j < before.len() && before[j] == rid;
                    assert(out@[j] == rid);
                }
                if exclude != Some(rid) && region_of@[nidx as int] == Some(rid) && !pre@.contains(spec_edge_key(r, c, nr, nc)) {
                    if !before.contains(rid) {
                        assert(out@[before.len() as int] == rid);
                    }
                }
            }
        }
        t = t + 1;
    }
    proof {
        assert forall|rid: usize| #[trigger] out@.contains(rid) <==> (open_to(region_of@, *pre, rid, r as int, c as int, h as int, w as int)
            && exclude != Some(rid)) by {
            if open_to(region_of@, *pre, rid, r as int, c as int, h as int, w as int) {
                let (nr, nc) = choose|nr: int, nc: int| #[trigger] side_neighbour(h as int, w as int, r as int, c as int, nr, nc)
                    && region_of@[nr * w + nc] == Some(rid) && !pre@.contains(spec_edge_key(r as usize, c as usize, nr as usize, nc as usize));
                assert(nbrs@.contains((nr as usize, nc as usize)));
                let i = choose|i: int| 0 <= i < nbrs@.len() && nbrs@[i] == (nr as usize, nc as usize);
                assert(nbrs@[i] == (nr as usize, nc as usize));
            }
            if exists|i: int| 0 <= i < t && region_of@[(#[trigger] nbrs@[i]).0 * w + nbrs@[i].1] == Some(rid) && !pre@.contains(
                spec_edge_key(r, c, nbrs@[i].0, nbrs@[i].1)) {
                let i = choose|i: int| 0 <= i < t && region_of@[(#[trigger] nbrs@[i]).0 * w + nbrs@[i].1] == Some(rid) && !pre@.contains(
                    spec_edge_key(r, c, nbrs@[i].0, nbrs@[i].1));
                let (nr, nc) = nbrs@[i];
                assert(side_neighbour(h as int, w as int, r as int, c as int, nr as int, nc as int));
            }
        }
    }
    out
}

/// The distinct regions touching flat cell `idx` across edges with no
/// pre-drawn boundary.
pub fn adjacent_regions(region_of: &[Option<usize>], idx: usize, pre: &PreBoundaries, h: usize, w: usize) -> (out: Vec<usize>)
    requires
        idx < h * w,
        h * w <= region_of@.len(),
    ensures
        out@.no_duplicates(),
        forall|rid: usize|
            #[trigger] out@.contains(rid) <==> open_to(
                region_of@,
                *pre,
                rid,
                idx as int / w as int,
                idx as int % w as int,
                h as int,
                w as int,
            ),
{
    proof {
        crate::edge_csp::grid::lemma_pos_bounds(h as int, w as int, idx as int);
    }
    open_regions(region_of, pre, idx / w, idx % w, None, h, w)
}

/// The distinct regions other than `cur_rid` that could take the cell
/// `(cell_r, cell_c)`: those touching it across edges with no pre-drawn
/// boundary.
pub fn collect_repair_neighbors(
    region_of: &[Option<usize>],
    pre: &PreBoundaries,
    cell_r: usize,
    cell_c: usize,
    cur_rid: usize,
    h: usize,
    w: usize,
) -> (out: Vec<usize>)
    requires
        cell_r < h,
        cell_c < w,
        h * w <= region_of@.len(),
    ensures
        out@.no_duplicates(),
        forall|rid: usize|
            #[trigger] out@.contains(rid) <==> (open_to(
                region_of@,
                *pre,
                rid,
                cell_r as int,
                cell_c as int,
                h as int,
                w as int,
            ) && rid != cur_rid),
{
    open_regions(region_of, pre, cell_r, cell_c, Some(cur_rid), h, w)
}


/// The pre-drawn boundaries as `[r1, c1, r2, c2]`, in iteration order.
pub open spec fn pre_list(pre: PreBoundaries) -> Seq<[usize; 4]> {
    Seq::new(pre.keys_seq().len(), |i: int| spec_decode_key(pre.keys_seq()[i]))
}

/// Both endpoints of boundary `e` are assigned, to the same region.
pub open spec fn violates(region_of: Seq<Option<usize>>, w: int, e: [usize; 4]) -> bool {
    let a = region_of[e[0] * w + e[1]];
    let b = region_of[e[2] * w + e[3]];
    a is Some && a == b
}

/// The boundaries of `list` that are violated, in order.
pub open spec fn violations_of(list: Seq<[usize; 4]>, region_of: Seq<Option<usize>>, w: int) -> Seq<[usize; 4]>
    decreases list.len(),
{
    if list.len() == 0 {
        Seq::empty()
    } else {
        let prev = violations_of(list.drop_last(), region_of, w);
        if violates(region_of, w, list.last()) {
            prev.push(list.last())
        } else {
            prev
        }
    }
}

/// Both endpoints of every boundary index into `region_of`.
pub open spec fn pre_indexes(pre: PreBoundaries, len: int, w: int) -> bool {
    forall|i: int|
        0 <= i < pre_list(pre).len() ==> (#[trigger] pre_list(pre)[i])[0] * w + pre_list(pre)[i][1] < len
            && pre_list(pre)[i][2] * w + pre_list(pre)[i][3] < len
}

/// The pre-drawn boundaries whose two endpoints share a region.
pub fn collect_violations(region_of: &[Option<usize>], pre: &PreBoundaries, w: usize) -> (out: Vec<[usize; 4]>)
    requires
        pre_indexes(*pre, region_of@.len() as int, w as int),
    ensures
        out@ == violations_of(pre_list(*pre), region_of@, w as int),
{
    let list = pre.iter();
    let len = region_of.len();
    proof {
        assert(list@ == pre_list(*pre));
    }
    let mut out: Vec<[usize; 4]> = Vec::new();
    let mut i: usize = 0;
    while i < list.len()
        invariant
            list@ == pre_list(*pre),
            len == region_of@.len(),
            pre_indexes(*pre, region_of@.len() as int, w as int),
            i <= list@.len(),
            out@ == violations_of(list@.take(i as int), region_of@, w as int),
        decreases list@.len() - i,
    {
        let e = list[i];
        proof {
            assert(list@.take(i + 1).drop_last() == list@.take(i as int));
            assert(e == pre_list(*pre)[i as int]);
        }
        let a = region_of[e[0] * w + e[1]];
        let b = region_of[e[2] * w + e[3]];
        if a.is_some() && a == b {
            out.push(e);
        }
        i = i + 1;
    }
    proof {
        assert(list@.take(i as int) == list@);
    }
    out
}


/// Region assignment and per-region cell sets agree on a board of `n`
/// cells: a set holds a cell exactly when the cell is assigned to it, and
/// every assigned id names a set.
pub open spec fn regions_agree(region_of: Seq<Option<usize>>, region_cells: Seq<CellSet>, n: int) -> bool {
    &&& region_of.len() == n
    &&& forall|i: int| 0 <= i < n && (#[trigger] region_of[i]) is Some ==> region_of[i].unwrap() < region_cells.len()
    &&& forall|rid: int| 0 <= rid < region_cells.len() ==> (#[trigger] region_cells[rid]).wf() && n <= region_cells[rid].nbits()
    &&& forall|rid: int, i: int|
        0 <= rid < region_cells.len() ==> (#[trigger] region_cells[rid].has(i) <==> (0 <= i < n && region_of[i]
            == Some(rid as usize)))
}

/// The sets keep their sizes and members.
pub open spec fn cells_kept(a: Seq<CellSet>, b: Seq<CellSet>) -> bool {
    &&& a.len() == b.len()
    &&& forall|rid: int| 0 <= rid < a.len() ==> (#[trigger] b[rid]).nbits() == a[rid].nbits() && b[rid].same_members(&a[rid])
}

/// `ro1` comes from `ro0` by moving cell `(r, c)` out of region `from` into
/// region `to`, which touches the cell with no boundary between and holds
/// no neighbour of it behind a boundary; `rc1` leaves `from` connected.
pub open spec fn guarded_move(
    ro0: Seq<Option<usize>>,
    ro1: Seq<Option<usize>>,
    rc1: Seq<CellSet>,
    pre: PreBoundaries,
    h: int,
    w: int,
    r: int,
    c: int,
    from: usize,
    to: usize,
) -> bool {
    &&& 0 <= r < h && 0 <= c < w
    &&& ro0[r * w + c] == Some(from) && to != from
    &&& ro1 == ro0.update(r * w + c, Some(to))
    &&& open_to(ro0, pre, to, r, c, h, w)
    &&& !walled_in(ro0, pre, to, r, c, -1, h, w)
    &&& set_connected(rc1[from as int], w)
}

/// `left` is `cs` without cell `idx`.
pub open spec fn removes_one(left: CellSet, cs: CellSet, idx: int) -> bool {
    &&& left.nbits() == cs.nbits()
    &&& forall|i: int| #[trigger] left.has(i) == (cs.has(i) && i != idx)
}

/// Taking cell `idx` out of `cs` leaves a connected set.
pub open spec fn leaves_connected(cs: CellSet, idx: int, w: int) -> bool {
    forall|left: CellSet| #[trigger] removes_one(left, cs, idx) ==> set_connected(left, w)
}

/// Whether a cell can move depends on the members of the regions alone.
pub proof fn lemma_movable_kept(
    ro: Seq<Option<usize>>,
    a: Seq<CellSet>,
    b: Seq<CellSet>,
    pre: PreBoundaries,
    h: int,
    w: int,
    r: int,
    c: int,
    to: usize,
)
    requires
        cells_kept(a, b),
        ro[r * w + c] is Some ==> ro[r * w + c].unwrap() < a.len(),
    ensures
        movable(ro, a, pre, h, w, r, c, to) == movable(ro, b, pre, h, w, r, c, to),
{
    if ro[r * w + c] is Some {
        let f = ro[r * w + c].unwrap() as int;
        let idx = r * w + c;
        assert(b[f].nbits() == a[f].nbits() && b[f].same_members(&a[f]));
        assert forall|left: CellSet| removes_one(left, a[f], idx) == removes_one(left, b[f], idx) by {
            if removes_one(left, a[f], idx) {
                assert forall|i: int| #[trigger] left.has(i) == (b[f].has(i) && i != idx) by {
                    assert(b[f].has(i) == a[f].has(i));
                }
            }
            if removes_one(left, b[f], idx) {
                assert forall|i: int| #[trigger] left.has(i) == (a[f].has(i) && i != idx) by {
                    assert(b[f].has(i) == a[f].has(i));
                }
            }
        }
        assert(leaves_connected(a[f], idx, w) == leaves_connected(b[f], idx, w));
    }
}

/// Cell `(r, c)` of some region can move into region `to` (`guarded_move`):
/// `to` touches it across no boundary, holds none of its neighbours behind a
/// boundary, and the region it leaves stays connected.
pub open spec fn movable(
    ro: Seq<Option<usize>>,
    rc: Seq<CellSet>,
    pre: PreBoundaries,
    h: int,
    w: int,
    r: int,
    c: int,
    to: usize,
) -> bool {
    let from = ro[r * w + c];
    &&& from is Some
    &&& to != from.unwrap()
    &&& open_to(ro, pre, to, r, c, h, w)
    &&& !walled_in(ro, pre, to, r, c, -1, h, w)
    &&& leaves_connected(rc[from.unwrap() as int], r * w + c, w)
}

/// The number of cells in region `rid`.
pub open spec fn region_size(region_cells: Seq<CellSet>, rid: usize) -> int {
    region_cells[rid as int].elems().len() as int
}

/// `rids` ordered by region size, ties in their original order.
fn sort_by_size(rids: &Vec<usize>, region_cells: &Vec<CellSet>) -> (out: Vec<usize>)
    requires
        forall|k: int| 0 <= k < rids@.len() ==> (#[trigger] rids@[k]) < region_cells@.len(),
        forall|rid: int| 0 <= rid < region_cells@.len() ==> (#[trigger] region_cells@[rid]).wf(),
    ensures
        out@.to_multiset() == rids@.to_multiset(),
        forall|a: int, b: int|
            0 <= a < b < out@.len() ==> region_size(region_cells@, #[trigger] out@[a]) <= region_size(
                region_cells@,
                #[trigger] out@[b],
            ),
{
    let mut out: Vec<usize> = Vec::new();
    let mut sizes: Vec<usize> = Vec::new();
    let mut k: usize = 0;
    proof {
        assert(rids@.take(0) =~= Seq::<usize>::empty());
    }
    while k < rids.len()
        invariant
            forall|q: int| 0 <= q < rids@.len() ==> (#[trigger] rids@[q]) < region_cells@.len(),
            forall|rid: int| 0 <= rid < region_cells@.len() ==> (#[trigger] region_cells@[rid]).wf(),
            k <= rids@.len(),
            out@.len() == sizes@.len(),
            out@.to_multiset() == rids@.take(k as int).to_multiset(),
            forall|q: int| 0 <= q < out@.len() ==> (#[trigger] sizes@[q]) == region_size(region_cells@, out@[q]),
            forall|a: int, b: int| 0 <= a < b < sizes@.len() ==> #[trigger] sizes@[a] <= #[trigger] sizes@[b],
        decreases rids@.len() - k,
    {
        let rid = rids[k];
        let sz = region_cells[rid].len();
        let mut j: usize = 0;
        while j < sizes.len() && sizes[j] <= sz
            invariant
                j <= sizes@.len(),
                forall|q: int| 0 <= q < j ==> #[trigger] sizes@[q] <= sz,
            decreases sizes@.len() - j,
        {
            j = j + 1;
        }
        let ghost o0 = out@;
        let ghost s0 = sizes@;
        out.insert(j, rid);
        sizes.insert(j, sz);
        proof {
            vstd::seq_lib::to_multiset_insert(o0, j as int, rid);
            assert(rids@.take(k + 1) == rids@.take(k as int).push(rid));
            vstd::seq_lib::to_multiset_build(rids@.take(k as int), rid);
            assert forall|q: int| 0 <= q < out@.len() implies (#[trigger] sizes@[q]) == region_size(region_cells@, out@[q]) by {
                if q < j {
                    assert(sizes@[q] == s0[q] && out@[q] == o0[q]);
                } else if q > j {
                    assert(sizes@[q] == s0[q - 1] && out@[q] == o0[q - 1]);
                }
            }
            assert forall|a: int, b: int| 0 <= a < b < sizes@.len() implies #[trigger] sizes@[a] <= #[trigger] sizes@[b] by {
                if b < j {
                    assert(sizes@[a] == s0[a] && sizes@[b] == s0[b]);
                } else if a < j && b == j {
                    assert(sizes@[a] == s0[a]);
                } else if a < j && b > j {
                    assert(sizes@[a] == s0[a] && sizes@[b] == s0[b - 1]);
                } else if a == j {
                    assert(sizes@[b] == s0[b - 1]);
                    if j < s0.len() {
                        assert(!(s0[j as int] <= sz));
                        if b - 1 > j {
                            assert(s0[j as int] <= s0[b - 1]);
                        }
                    }
                } else {
                    assert(sizes@[a] == s0[a - 1] && sizes@[b] == s0[b - 1]);
                }
            }
        }
        k = k + 1;
    }
    proof {
        assert(rids@.take(k as int) == rids@);
        assert forall|a: int, b: int| 0 <= a < b < out@.len() implies region_size(region_cells@, #[trigger] out@[a]) <= region_size(
            region_cells@,
            #[trigger] out@[b],
        ) by {
            assert(sizes@[a] <= sizes@[b]);
        }
    }
    out
}

/// Tries to move cell `(cell_r, cell_c)` out of its region into a touching
/// region of smallest size that takes it without a boundary conflict and
/// without splitting the region it leaves.
fn try_move_cell(
    region_of: &mut Vec<Option<usize>>,
    region_cells: &mut Vec<CellSet>,
    cell_r: usize,
    cell_c: usize,
    pre: &PreBoundaries,
    h: usize,
    w: usize,
) -> (moved: bool)
    requires
        regions_agree(old(region_of)@, old(region_cells)@, h * w),
        cell_r < h,
        cell_c < w,
        h * w <= usize::MAX,
    ensures
        regions_agree(final(region_of)@, final(region_cells)@, h * w),
        final(region_cells)@.len() == old(region_cells)@.len(),
        forall|rid: int|
            0 <= rid < old(region_cells)@.len() ==> (#[trigger] final(region_cells)@[rid]).nbits()
                == old(region_cells)@[rid].nbits(),
        moved ==> exists|from: usize, to: usize|
            guarded_move(
                old(region_of)@,
                final(region_of)@,
                final(region_cells)@,
                *pre,
                h as int,
                w as int,
                cell_r as int,
                cell_c as int,
                from,
                to,
            ),
        !moved ==> final(region_of)@ == old(region_of)@ && cells_kept(old(region_cells)@, final(region_cells)@),
        !moved ==> forall|to: usize|
            !#[trigger] movable(old(region_of)@, old(region_cells)@, *pre, h as int, w as int, cell_r as int, cell_c as int, to),
{
    proof {
        crate::edge_csp::grid::lemma_cell_id_bound(h as int, w as int, cell_r as int, cell_c as int);
    }
    let idx = cell_r * w + cell_c;
    let cur = match region_of[idx] {
        None => {
            return false;
        },
        Some(x) => x,
    };
    let alts = collect_repair_neighbors(region_of.as_slice(), pre, cell_r, cell_c, cur, h, w);
    proof {
        assert forall|k: int| 0 <= k < alts@.len() implies (#[trigger] alts@[k]) < region_cells@.len() by {
            assert(alts@.contains(alts@[k]));
            let rid = alts@[k];
            let (nr, nc) = choose|nr: int, nc: int| #[trigger] side_neighbour(h as int, w as int, cell_r as int, cell_c as int, nr, nc)
                && region_of@[nr * w + nc] == Some(rid) && !pre@.contains(spec_edge_key(cell_r, cell_c, nr as usize, nc as usize));
            crate::edge_csp::grid::lemma_cell_id_bound(h as int, w as int, nr, nc);
        }
    }
    let sorted = sort_by_size(&alts, region_cells);
    let m = region_cells.len();
    let mut k: usize = 0;
    while k < sorted.len()
        invariant
            m == region_cells@.len(),
            regions_agree(region_of@, region_cells@, h * w),
            region_of@ == old(region_of)@,
            region_cells@ == old(region_cells)@,
            idx == cell_r * w + cell_c,
            idx < h * w,
            cell_r < h,
            cell_c < w,
            h * w <= usize::MAX,
            region_of@[idx as int] == Some(cur),
            sorted@.to_multiset() == alts@.to_multiset(),
            forall|rid: usize|
                #[trigger] alts@.contains(rid) <==> (open_to(
                    region_of@,
                    *pre,
                    rid,
                    cell_r as int,
                    cell_c as int,
                    h as int,
                    w as int,
                ) && rid != cur),
            forall|q: int| 0 <= q < alts@.len() ==> (#[trigger] alts@[q]) < region_cells@.len(),
            k <= sorted@.len(),
            forall|q: int|
                0 <= q < k ==> !movable(region_of@, region_cells@, *pre, h as int, w as int, cell_r as int, cell_c as int, #[trigger] sorted@[q]),
        decreases sorted@.len() - k,
    {
        let nrid = sorted[k];
        proof {
            vstd::seq_lib::to_multiset_contains(sorted@, nrid);
            vstd::seq_lib::to_multiset_contains(alts@, nrid);
            assert(sorted@.contains(nrid));
            let q = choose|q: int| 0 <= q < alts@.len() && alts@[q] == nrid;
            assert(alts@[q] < region_cells@.len());
        }
        if has_pre_neighbor_in(region_of.as_slice(), pre, nrid, cell_r, cell_c, h, w) {
            k = k + 1;
            continue;
        }
        let mut left = region_cells[cur].copy();
        left.remove(idx);
        if !is_connected_set(&left, w) {
            proof {
                assert(removes_one(left, region_cells@[cur as int], idx as int));
                assert(!leaves_connected(region_cells@[cur as int], idx as int, w as int));
            }
            k = k + 1;
            continue;
        }
        let ghost ro0 = region_of@;
        let ghost rc0 = region_cells@;
        region_of.set(idx, Some(nrid));
        region_cells.set(cur, left);
        let ghost rc1 = region_cells@;
        proof {
            assert(rc1 == rc0.update(cur as int, left));
        }
        region_cells[nrid].insert(idx);
        proof {
            assert(region_cells@.len() == rc1.len());
            assert(forall|q: int| 0 <= q < rc1.len() && q != nrid ==> region_cells@[q] == rc1[q]);
            assert(forall|i: int| #[trigger] region_cells@[nrid as int].has(i) == (i == idx || rc1[nrid as int].has(i)));
            assert(region_cells@[cur as int] == left);
            assert(nrid != cur);
            assert forall|rid: int, i: int| 0 <= rid < region_cells@.len() implies (#[trigger] region_cells@[rid].has(i) <==> (0
                <= i < h * w && region_of@[i] == Some(rid as usize))) by {
                if rid != cur && rid != nrid {
                    assert(rid as usize != cur && rid as usize != nrid);
                    assert(region_cells@[rid] == rc0[rid]);
                    assert(rc0[rid].has(i) <==> (0 <= i < h * w && ro0[i] == Some(rid as usize)));
                } else if rid == cur {
                    assert(region_cells@[rid] == left);
                    assert(rc0[rid].has(i) <==> (0 <= i < h * w && ro0[i] == Some(cur)));
                    assert(left.has(i) <==> (i != idx && rc0[rid].has(i)));
                    assert(region_of@ == ro0.update(idx as int, Some(nrid)));
                    assert((rid as usize) == cur);
                    assert(region_cells@[rid].has(i) <==> (0 <= i < h * w && region_of@[i] == Some(rid as usize)));
                } else {
                    assert(rid as usize == nrid);
                    assert(rc1[rid] == rc0[rid]);
                    assert(rc0[rid].has(i) <==> (0 <= i < h * w && ro0[i] == Some(nrid)));
                    assert(region_of@ == ro0.update(idx as int, Some(nrid)));
                    assert(region_cells@[rid].has(i) <==> (0 <= i < h * w && region_of@[i] == Some(rid as usize)));
                }
            }
            assert forall|i: int| 0 <= i < h * w && (#[trigger] region_of@[i]) is Some implies region_of@[i].unwrap() < region_cells@.len() by {
                if i != idx {
                    assert(ro0[i] == region_of@[i]);
                }
            }
            assert forall|rid: int| 0 <= rid < region_cells@.len() implies (#[trigger] region_cells@[rid]).wf() && h * w <= region_cells@[rid].nbits() by {
                assert(rc0[rid].wf() && h * w <= rc0[rid].nbits());
            }
            assert(guarded_move(ro0, region_of@, region_cells@, *pre, h as int, w as int, cell_r as int, cell_c as int, cur, nrid));
        }
        return true;
    }
    proof {
        assert forall|rid: int| 0 <= rid < region_cells@.len() implies (#[trigger] region_cells@[rid]).nbits() == region_cells@[rid].nbits()
            && region_cells@[rid].same_members(&region_cells@[rid]) by {
        }
        assert forall|to: usize|
            !#[trigger] movable(region_of@, region_cells@, *pre, h as int, w as int, cell_r as int, cell_c as int, to) by {
            if movable(region_of@, region_cells@, *pre, h as int, w as int, cell_r as int, cell_c as int, to) {
                assert(alts@.contains(to));
                vstd::seq_lib::to_multiset_contains(alts@, to);
                vstd::seq_lib::to_multiset_contains(sorted@, to);
                assert(sorted@.contains(to));
                let q = choose|q: int| 0 <= q < sorted@.len() && sorted@[q] == to;
                assert(!movable(region_of@, region_cells@, *pre, h as int, w as int, cell_r as int, cell_c as int, sorted@[q]));
            }
        }
    }
    false
}


/// Every boundary in the list has both endpoints on the board.
pub open spec fn ends_on_board(list: Seq<[usize; 4]>, h: int, w: int) -> bool {
    forall|i: int|
        0 <= i < list.len() ==> (#[trigger] list[i])[0] < h && list[i][1] < w && list[i][2] < h && list[i][3] < w
}

/// Some endpoint of a listed boundary was moved by a guarded move.
pub open spec fn moved_an_end(
    list: Seq<[usize; 4]>,
    ro0: Seq<Option<usize>>,
    ro1: Seq<Option<usize>>,
    rc1: Seq<CellSet>,
    pre: PreBoundaries,
    h: int,
    w: int,
) -> bool {
    exists|i: int, side: int, from: usize, to: usize|
        0 <= i < list.len() && 0 <= side < 2 && #[trigger] guarded_move(
            ro0,
            ro1,
            rc1,
            pre,
            h,
            w,
            list[i][2 * side] as int,
            list[i][2 * side + 1] as int,
            from,
            to,
        )
}

/// First repair strategy: for each violated boundary in turn, move one of
/// its endpoints into a touching region (smallest first) that takes it with
/// no boundary conflict and without splitting the region it leaves.  The
/// result is whether a cell moved.
pub fn try_swap_fix(
    region_of: &mut Vec<Option<usize>>,
    region_cells: &mut Vec<CellSet>,
    violations: &Vec<[usize; 4]>,
    pre: &PreBoundaries,
    h: usize,
    w: usize,
) -> (moved: bool)
    requires
        regions_agree(old(region_of)@, old(region_cells)@, h * w),
        h * w <= usize::MAX,
        ends_on_board(violations@, h as int, w as int),
    ensures
        regions_agree(final(region_of)@, final(region_cells)@, h * w),
        final(region_cells)@.len() == old(region_cells)@.len(),
        forall|rid: int|
            0 <= rid < old(region_cells)@.len() ==> (#[trigger] final(region_cells)@[rid]).nbits()
                == old(region_cells)@[rid].nbits(),
        moved ==> moved_an_end(violations@, old(region_of)@, final(region_of)@, final(region_cells)@, *pre, h as int, w as int),
        !moved ==> final(region_of)@ == old(region_of)@ && cells_kept(old(region_cells)@, final(region_cells)@),
        !moved ==> forall|i: int, side: int, to: usize|
            0 <= i < violations@.len() && 0 <= side < 2 ==> !#[trigger] movable(
                old(region_of)@,
                old(region_cells)@,
                *pre,
                h as int,
                w as int,
                violations@[i][2 * side] as int,
                violations@[i][2 * side + 1] as int,
                to,
            ),
{
    let mut i: usize = 0;
    while i < violations.len()
        invariant
            regions_agree(region_of@, region_cells@, h * w),
            h * w <= usize::MAX,
            ends_on_board(violations@, h as int, w as int),
            i <= violations@.len(),
            region_of@ == old(region_of)@,
            cells_kept(old(region_cells)@, region_cells@),
            regions_agree(old(region_of)@, old(region_cells)@, h * w),
            forall|i2: int, s2: int, to: usize|
                0 <= i2 < i && 0 <= s2 < 2 ==> !#[trigger] movable(
                    old(region_of)@,
                    old(region_cells)@,
                    *pre,
                    h as int,
                    w as int,
                    violations@[i2][2 * s2] as int,
                    violations@[i2][2 * s2 + 1] as int,
                    to,
                ),
        decreases violations@.len() - i,
    {
        let v = violations[i];
        let mut side: usize = 0;
        while side < 2
            invariant
                regions_agree(region_of@, region_cells@, h * w),
                h * w <= usize::MAX,
                ends_on_board(violations@, h as int, w as int),
                i < violations@.len(),
                v == violations@[i as int],
                side <= 2,
                region_of@ == old(region_of)@,
                cells_kept(old(region_cells)@, region_cells@),
                regions_agree(old(region_of)@, old(region_cells)@, h * w),
                forall|i2: int, s2: int, to: usize|
                    (0 <= i2 < i && 0 <= s2 < 2) || (i2 == i && 0 <= s2 < side) ==> !#[trigger] movable(
                        old(region_of)@,
                        old(region_cells)@,
                        *pre,
                        h as int,
                        w as int,
                        violations@[i2][2 * s2] as int,
                        violations@[i2][2 * s2 + 1] as int,
                        to,
                    ),
            decreases 2 - side,
        {
            let (cell_r, cell_c) = if side == 0 {
                (v[0], v[1])
            } else {
                (v[2], v[3])
            };
            let ghost rc_before = region_cells@;
            if try_move_cell(region_of, region_cells, cell_r, cell_c, pre, h, w) {
                proof {
                    let (from, to) = choose|from: usize, to: usize| guarded_move(old(region_of)@, region_of@, region_cells@, *pre, h as int, w as int, cell_r as int, cell_c as int, from, to);
                    assert(cell_r == v[2 * side as int] && cell_c == v[2 * side as int + 1]);
                    assert(guarded_move(old(region_of)@, region_of@, region_cells@, *pre, h as int, w as int, violations@[i as int][2 * side as int] as int, violations@[i as int][2 * side as int + 1] as int, from, to));
                }
                return true;
            }
            proof {
                assert(cell_r == v[2 * side as int] && cell_c == v[2 * side as int + 1]);
                crate::edge_csp::grid::lemma_cell_id_bound(h as int, w as int, cell_r as int, cell_c as int);
                assert forall|to: usize| !#[trigger] movable(
                    old(region_of)@,
                    old(region_cells)@,
                    *pre,
                    h as int,
                    w as int,
                    cell_r as int,
                    cell_c as int,
                    to,
                ) by {
                    lemma_movable_kept(old(region_of)@, old(region_cells)@, rc_before, *pre, h as int, w as int, cell_r as int, cell_c as int, to);
                }
            }
            side = side + 1;
        }
        i = i + 1;
    }
    false
}


/// `ro1` comes from `ro0` by swapping cell `(r, c)` of region `cur` with its
/// side neighbour `(nr, nc)` of region `nrid`: no boundary runs between the
/// two, neither lands next to a cell of its new region behind a boundary,
/// and `rc1` leaves both regions connected.
pub open spec fn guarded_swap(
    ro0: Seq<Option<usize>>,
    ro1: Seq<Option<usize>>,
    rc1: Seq<CellSet>,
    pre: PreBoundaries,
    h: int,
    w: int,
    r: int,
    c: int,
    nr: int,
    nc: int,
    cur: usize,
    nrid: usize,
) -> bool {
    &&& side_neighbour(h, w, r, c, nr, nc)
    &&& 0 <= r < h && 0 <= c < w
    &&& ro0[r * w + c] == Some(cur) && ro0[nr * w + nc] == Some(nrid) && nrid != cur
    &&& !pre@.contains(spec_edge_key(r as usize, c as usize, nr as usize, nc as usize))
    &&& !walled_in(ro0, pre, cur, nr, nc, r * w + c, h, w)
    &&& !walled_in(ro0, pre, nrid, r, c, nr * w + nc, h, w)
    &&& ro1 == ro0.update(nr * w + nc, Some(cur)).update(r * w + c, Some(nrid))
    &&& set_connected(rc1[cur as int], w) && set_connected(rc1[nrid as int], w)
}

/// `s` is `cs` with cell `out` traded for cell `inn`.
pub open spec fn trades(s: CellSet, cs: CellSet, out: int, inn: int) -> bool {
    &&& s.nbits() == cs.nbits()
    &&& forall|i: int| #[trigger] s.has(i) == ((cs.has(i) && i != out) || i == inn)
}

/// Trading cell `out` of `cs` for cell `inn` leaves a connected set.
pub open spec fn trade_connected(cs: CellSet, out: int, inn: int, w: int) -> bool {
    forall|s: CellSet| #[trigger] trades(s, cs, out, inn) ==> set_connected(s, w)
}

/// Cell `(r, c)` can swap with its side neighbour `(nr, nc)` of another
/// region (`guarded_swap`): no boundary between them, neither lands next
/// to a cell of its new region behind a boundary, and both regions stay
/// connected.
pub open spec fn swappable(
    ro: Seq<Option<usize>>,
    rc: Seq<CellSet>,
    pre: PreBoundaries,
    h: int,
    w: int,
    r: int,
    c: int,
    nr: int,
    nc: int,
) -> bool {
    let b = r * w + c;
    let a = nr * w + nc;
    &&& side_neighbour(h, w, r, c, nr, nc)
    &&& ro[b] is Some && ro[a] is Some && ro[a] != ro[b]
    &&& !pre@.contains(spec_edge_key(r as usize, c as usize, nr as usize, nc as usize))
    &&& !walled_in(ro, pre, ro[b].unwrap(), nr, nc, b, h, w)
    &&& !walled_in(ro, pre, ro[a].unwrap(), r, c, a, h, w)
    &&& trade_connected(rc[ro[b].unwrap() as int], b, a, w)
    &&& trade_connected(rc[ro[a].unwrap() as int], a, b, w)
}

/// Whether two cells can swap depends on the members of the regions alone.
pub proof fn lemma_swappable_kept(
    ro: Seq<Option<usize>>,
    a: Seq<CellSet>,
    b: Seq<CellSet>,
    pre: PreBoundaries,
    h: int,
    w: int,
    r: int,
    c: int,
    nr: int,
    nc: int,
)
    requires
        cells_kept(a, b),
        ro[r * w + c] is Some ==> ro[r * w + c].unwrap() < a.len(),
        ro[nr * w + nc] is Some ==> ro[nr * w + nc].unwrap() < a.len(),
    ensures
        swappable(ro, a, pre, h, w, r, c, nr, nc) == swappable(ro, b, pre, h, w, r, c, nr, nc),
{
    let x = r * w + c;
    let y = nr * w + nc;
    if ro[x] is Some && ro[y] is Some {
        let f = ro[x].unwrap() as int;
        let g = ro[y].unwrap() as int;
        assert forall|s: CellSet| trades(s, a[f], x, y) == trades(s, b[f], x, y) by {
            assert(b[f].nbits() == a[f].nbits());
            if trades(s, a[f], x, y) {
                assert forall|i: int| #[trigger] s.has(i) == ((b[f].has(i) && i != x) || i == y) by {
                    assert(b[f].has(i) == a[f].has(i));
                }
            }
            if trades(s, b[f], x, y) {
                assert forall|i: int| #[trigger] s.has(i) == ((a[f].has(i) && i != x) || i == y) by {
                    assert(b[f].has(i) == a[f].has(i));
                }
            }
        }
        assert forall|s: CellSet| trades(s, a[g], y, x) == trades(s, b[g], y, x) by {
            assert(b[g].nbits() == a[g].nbits());
            if trades(s, a[g], y, x) {
                assert forall|i: int| #[trigger] s.has(i) == ((b[g].has(i) && i != y) || i == x) by {
                    assert(b[g].has(i) == a[g].has(i));
                }
            }
            if trades(s, b[g], y, x) {
                assert forall|i: int| #[trigger] s.has(i) == ((a[g].has(i) && i != y) || i == x) by {
                    assert(b[g].has(i) == a[g].has(i));
                }
            }
        }
        assert(trade_connected(a[f], x, y, w) == trade_connected(b[f], x, y, w));
        assert(trade_connected(a[g], y, x, w) == trade_connected(b[g], y, x, w));
    }
}

/// Tries to swap cell `(cell_r, cell_c)` with a side neighbour of another
/// region (up, down, left, right), keeping both regions connected.
fn try_swap_cell(
    region_of: &mut Vec<Option<usize>>,
    region_cells: &mut Vec<CellSet>,
    cell_r: usize,
    cell_c: usize,
    pre: &PreBoundaries,
    h: usize,
    w: usize,
) -> (moved: bool)
    requires
        regions_agree(old(region_of)@, old(region_cells)@, h * w),
        cell_r < h,
        cell_c < w,
        h * w <= usize::MAX,
    ensures
        regions_agree(final(region_of)@, final(region_cells)@, h * w),
        final(region_cells)@.len() == old(region_cells)@.len(),
        forall|rid: int|
            0 <= rid < old(region_cells)@.len() ==> (#[trigger] final(region_cells)@[rid]).nbits()
                == old(region_cells)@[rid].nbits(),
        moved ==> exists|nr: int, nc: int, cur: usize, nrid: usize|
            #[trigger] guarded_swap(
                old(region_of)@,
                final(region_of)@,
                final(region_cells)@,
                *pre,
                h as int,
                w as int,
                cell_r as int,
                cell_c as int,
                nr,
                nc,
                cur,
                nrid,
            ),
        !moved ==> final(region_of)@ == old(region_of)@ && cells_kept(old(region_cells)@, final(region_cells)@),
        !moved ==> forall|nr: int, nc: int|
            !#[trigger] swappable(old(region_of)@, old(region_cells)@, *pre, h as int, w as int, cell_r as int, cell_c as int, nr, nc),
{
    proof {
        crate::edge_csp::grid::lemma_cell_id_bound(h as int, w as int, cell_r as int, cell_c as int);
    }
    let b = cell_r * w + cell_c;
    let cur = match region_of[b] {
        None => {
            proof {
                assert forall|nr: int, nc: int|
                    !#[trigger] swappable(region_of@, region_cells@, *pre, h as int, w as int, cell_r as int, cell_c as int, nr, nc) by {}
                assert(cells_kept(region_cells@, region_cells@));
            }
            return false;
        },
        Some(x) => x,
    };
    let m = region_cells.len();
    let nbrs = neighbor_positions(cell_r, cell_c, h, w);
    let mut t: usize = 0;
    while t < nbrs.len()
        invariant
            m == region_cells@.len(),
            regions_agree(region_of@, region_cells@, h * w),
            region_of@ == old(region_of)@,
            region_cells@ == old(region_cells)@,
            b == cell_r * w + cell_c,
            b < h * w,
            cell_r < h,
            cell_c < w,
            h * w <= usize::MAX,
            region_of@[b as int] == Some(cur),
            forall|i: int|
                0 <= i < nbrs@.len() ==> {
                    let (nr, nc) = #[trigger] nbrs@[i];
                    &&& nr < h && nc < w
                    &&& (nr == cell_r && (nc + 1 == cell_c || cell_c + 1 == nc)) || (nc == cell_c && (nr + 1
                        == cell_r || cell_r + 1 == nr))
                },
            t <= nbrs@.len(),
            forall|q: int|
                0 <= q < t ==> !swappable(region_of@, region_cells@, *pre, h as int, w as int, cell_r as int, cell_c as int,
                    (#[trigger] nbrs@[q]).0 as int, nbrs@[q].1 as int),
        decreases nbrs@.len() - t,
    {
        let (nru, ncu) = nbrs[t];
        proof {
            crate::edge_csp::grid::lemma_cell_id_bound(h as int, w as int, nru as int, ncu as int);
        }
        let a = nru * w + ncu;
        let n_rid = match region_of[a] {
            None => {
                proof {
                    assert(!swappable(region_of@, region_cells@, *pre, h as int, w as int, cell_r as int, cell_c as int, nru as int, ncu as int));
                }
                t = t + 1;
                continue;
            },
            Some(x) => x,
        };
        if n_rid == cur || pre.contains(cell_r, cell_c, nru, ncu) {
            proof {
                assert(!swappable(region_of@, region_cells@, *pre, h as int, w as int, cell_r as int, cell_c as int, nru as int, ncu as int));
            }
            t = t + 1;
            continue;
        }
        if !can_move_neighbor(region_of.as_slice(), pre, cur, cell_r, cell_c, nru, ncu, h, w) {
            proof {
                assert(!swappable(region_of@, region_cells@, *pre, h as int, w as int, cell_r as int, cell_c as int, nru as int, ncu as int));
            }
            t = t + 1;
            continue;
        }
        if !can_move_self(region_of.as_slice(), pre, n_rid, a, cell_r, cell_c, h, w) {
            proof {
                assert(!swappable(region_of@, region_cells@, *pre, h as int, w as int, cell_r as int, cell_c as int, nru as int, ncu as int));
            }
            t = t + 1;
            continue;
        }
        proof {
            assert(a != b);
        }
        let mut cur_set = region_cells[cur].copy();
        cur_set.remove(b);
        cur_set.insert(a);
        let mut n_set = region_cells[n_rid].copy();
        n_set.remove(a);
        n_set.insert(b);
        if !is_connected_set(&cur_set, w) || !is_connected_set(&n_set, w) {
            proof {
                assert(trades(cur_set, region_cells@[cur as int], b as int, a as int));
                assert(trades(n_set, region_cells@[n_rid as int], a as int, b as int));
                assert(!swappable(region_of@, region_cells@, *pre, h as int, w as int, cell_r as int, cell_c as int, nru as int, ncu as int));
            }
            t = t + 1;
            continue;
        }
        let ghost ro0 = region_of@;
        let ghost rc0 = region_cells@;
        region_of.set(a, Some(cur));
        region_of.set(b, Some(n_rid));
        region_cells.set(cur, cur_set);
        region_cells.set(n_rid, n_set);
        proof {
            assert(region_cells@ == rc0.update(cur as int, cur_set).update(n_rid as int, n_set));
            assert(region_of@ == ro0.update(a as int, Some(cur)).update(b as int, Some(n_rid)));
            assert forall|rid: int, i: int| 0 <= rid < region_cells@.len() implies (#[trigger] region_cells@[rid].has(i) <==> (0
                <= i < h * w && region_of@[i] == Some(rid as usize))) by {
                assert(rc0[rid].has(i) <==> (0 <= i < h * w && ro0[i] == Some(rid as usize)));
                if rid != cur && rid != n_rid {
                    assert(rid as usize != cur && rid as usize != n_rid);
                    assert(region_cells@[rid] == rc0[rid]);
                } else if rid == cur {
                    assert(rid as usize == cur);
                    assert(region_cells@[rid] == cur_set);
                } else {
                    assert(rid as usize == n_rid);
                    assert(region_cells@[rid] == n_set);
                }
            }
            assert forall|i: int| 0 <= i < h * w && (#[trigger] region_of@[i]) is Some implies region_of@[i].unwrap() < region_cells@.len() by {
                if i != a && i != b {
                    assert(ro0[i] == region_of@[i]);
                }
            }
            assert forall|rid: int| 0 <= rid < region_cells@.len() implies (#[trigger] region_cells@[rid]).wf() && h * w <= region_cells@[rid].nbits() by {
                assert(rc0[rid].wf() && h * w <= rc0[rid].nbits());
            }
            assert(side_neighbour(h as int, w as int, cell_r as int, cell_c as int, nru as int, ncu as int));
            assert(guarded_swap(ro0, region_of@, region_cells@, *pre, h as int, w as int, cell_r as int, cell_c as int, nru as int, ncu as int, cur, n_rid));
        }
        return true;
    }
    proof {
        assert(cells_kept(region_cells@, region_cells@));
        assert forall|nr: int, nc: int|
            !#[trigger] swappable(region_of@, region_cells@, *pre, h as int, w as int, cell_r as int, cell_c as int, nr, nc) by {
            if swappable(region_of@, region_cells@, *pre, h as int, w as int, cell_r as int, cell_c as int, nr, nc) {
                assert(nbrs@.contains((nr as usize, nc as usize)));
                let q = choose|q: int| 0 <= q < nbrs@.len() && nbrs@[q] == (nr as usize, nc as usize);
                assert(nbrs@[q].0 as int == nr && nbrs@[q].1 as int == nc);
            }
        }
    }
    false
}

/// Second repair strategy: for each violated boundary in turn, swap one of
/// its endpoints with a side neighbour of another region (see
/// `guarded_swap`).  The result is whether a swap happened.
pub fn try_chain_move(
    region_of: &mut Vec<Option<usize>>,
    region_cells: &mut Vec<CellSet>,
    violations: &Vec<[usize; 4]>,
    pre: &PreBoundaries,
    h: usize,
    w: usize,
) -> (moved: bool)
    requires
        regions_agree(old(region_of)@, old(region_cells)@, h * w),
        h * w <= usize::MAX,
        ends_on_board(violations@, h as int, w as int),
    ensures
        regions_agree(final(region_of)@, final(region_cells)@, h * w),
        final(region_cells)@.len() == old(region_cells)@.len(),
        forall|rid: int|
            0 <= rid < old(region_cells)@.len() ==> (#[trigger] final(region_cells)@[rid]).nbits()
                == old(region_cells)@[rid].nbits(),
        moved ==> exists|i: int, side: int, nr: int, nc: int, cur: usize, nrid: usize|
            0 <= i < violations@.len() && 0 <= side < 2 && #[trigger] guarded_swap(
                old(region_of)@,
                final(region_of)@,
                final(region_cells)@,
                *pre,
                h as int,
                w as int,
                violations@[i][2 * side] as int,
                violations@[i][2 * side + 1] as int,
                nr,
                nc,
                cur,
                nrid,
            ),
        !moved ==> final(region_of)@ == old(region_of)@ && cells_kept(old(region_cells)@, final(region_cells)@),
        !moved ==> forall|i: int, side: int, nr: int, nc: int|
            0 <= i < violations@.len() && 0 <= side < 2 ==> !#[trigger] swappable(
                old(region_of)@,
                old(region_cells)@,
                *pre,
                h as int,
                w as int,
                violations@[i][2 * side] as int,
                violations@[i][2 * side + 1] as int,
                nr,
                nc,
            ),
{
    let mut i: usize = 0;
    while i < violations.len()
        invariant
            regions_agree(region_of@, region_cells@, h * w),
            h * w <= usize::MAX,
            ends_on_board(violations@, h as int, w as int),
            i <= violations@.len(),
            region_of@ == old(region_of)@,
            cells_kept(old(region_cells)@, region_cells@),
            regions_agree(old(region_of)@, old(region_cells)@, h * w),
            forall|i2: int, s2: int, nr: int, nc: int|
                0 <= i2 < i && 0 <= s2 < 2 ==> !#[trigger] swappable(
                    old(region_of)@,
                    old(region_cells)@,
                    *pre,
                    h as int,
                    w as int,
                    violations@[i2][2 * s2] as int,
                    violations@[i2][2 * s2 + 1] as int,
                    nr,
                    nc,
                ),
        decreases violations@.len() - i,
    {
        let v = violations[i];
        let mut side: usize = 0;
        while side < 2
            invariant
                regions_agree(region_of@, region_cells@, h * w),
                h * w <= usize::MAX,
                ends_on_board(violations@, h as int, w as int),
                i < violations@.len(),
                v == violations@[i as int],
                side <= 2,
                region_of@ == old(region_of)@,
                cells_kept(old(region_cells)@, region_cells@),
                regions_agree(old(region_of)@, old(region_cells)@, h * w),
                forall|i2: int, s2: int, nr: int, nc: int|
                    (0 <= i2 < i && 0 <= s2 < 2) || (i2 == i && 0 <= s2 < side) ==> !#[trigger] swappable(
                        old(region_of)@,
                        old(region_cells)@,
                        *pre,
                        h as int,
                        w as int,
                        violations@[i2][2 * s2] as int,
                        violations@[i2][2 * s2 + 1] as int,
                        nr,
                        nc,
                    ),
            decreases 2 - side,
        {
            let (cell_r, cell_c) = if side == 0 {
                (v[0], v[1])
            } else {
                (v[2], v[3])
            };
            let ghost rc_before = region_cells@;
            if try_swap_cell(region_of, region_cells, cell_r, cell_c, pre, h, w) {
                proof {
                    let (nr, nc, cur, nrid) = choose|nr: int, nc: int, cur: usize, nrid: usize| #[trigger] guarded_swap(old(region_of)@, region_of@, region_cells@, *pre, h as int, w as int, cell_r as int, cell_c as int, nr, nc, cur, nrid);
                    assert(cell_r == v[2 * side as int] && cell_c == v[2 * side as int + 1]);
                    assert(guarded_swap(old(region_of)@, region_of@, region_cells@, *pre, h as int, w as int, violations@[i as int][2 * side as int] as int, violations@[i as int][2 * side as int + 1] as int, nr, nc, cur, nrid));
                }
                return true;
            }
            proof {
                assert(cell_r == v[2 * side as int] && cell_c == v[2 * side as int + 1]);
                crate::edge_csp::grid::lemma_cell_id_bound(h as int, w as int, cell_r as int, cell_c as int);
                assert forall|nr: int, nc: int| !#[trigger] swappable(
                    old(region_of)@,
                    old(region_cells)@,
                    *pre,
                    h as int,
                    w as int,
                    cell_r as int,
                    cell_c as int,
                    nr,
                    nc,
                ) by {
                    if side_neighbour(h as int, w as int, cell_r as int, cell_c as int, nr, nc) {
                        crate::edge_csp::grid::lemma_cell_id_bound(h as int, w as int, nr, nc);
                        lemma_swappable_kept(old(region_of)@, old(region_cells)@, rc_before, *pre, h as int, w as int, cell_r as int, cell_c as int, nr, nc);
                    }
                }
            }
            side = side + 1;
        }
        i = i + 1;
    }
    false
}


/// Every pre-drawn boundary has both endpoints on an `h` by `w` board.
pub open spec fn pre_on_board(pre: PreBoundaries, h: int, w: int) -> bool {
    ends_on_board(pre_list(pre), h, w)
}

proof fn lemma_violations_sub(list: Seq<[usize; 4]>, region_of: Seq<Option<usize>>, w: int)
    ensures
        forall|i: int|
            0 <= i < violations_of(list, region_of, w).len() ==> list.contains(
                #[trigger] violations_of(list, region_of, w)[i],
            ),
    decreases list.len(),
{
    if list.len() > 0 {
        let prev = list.drop_last();
        lemma_violations_sub(prev, region_of, w);
        let v = violations_of(list, region_of, w);
        assert forall|i: int| 0 <= i < v.len() implies list.contains(#[trigger] v[i]) by {
            if i < violations_of(prev, region_of, w).len() {
                let x = v[i];
                assert(prev.contains(x));
                let j = choose|j: int| 0 <= j < prev.len() && prev[j] == x;
                assert(list[j] == x);
            } else {
                assert(list[list.len() - 1] == v[i]);
            }
        }
    }
}

proof fn lemma_pre_on_board(pre: PreBoundaries, region_of: Seq<Option<usize>>, h: int, w: int)
    requires
        pre_on_board(pre, h, w),
        region_of.len() == h * w,
    ensures
        pre_indexes(pre, region_of.len() as int, w),
        ends_on_board(violations_of(pre_list(pre), region_of, w), h, w),
{
    let list = pre_list(pre);
    assert forall|i: int| 0 <= i < list.len() implies (#[trigger] list[i])[0] * w + list[i][1] < region_of.len()
        && list[i][2] * w + list[i][3] < region_of.len() by {
        crate::edge_csp::grid::lemma_cell_id_bound(h, w, list[i][0] as int, list[i][1] as int);
        crate::edge_csp::grid::lemma_cell_id_bound(h, w, list[i][2] as int, list[i][3] as int);
    }
    lemma_violations_sub(list, region_of, w);
    let v = violations_of(list, region_of, w);
    assert forall|i: int| 0 <= i < v.len() implies (#[trigger] v[i])[0] < h && v[i][1] < w && v[i][2] < h && v[i][3] < w by {
        assert(list.contains(v[i]));
        let j = choose|j: int| 0 <= j < list.len() && list[j] == v[i];
        assert(list[j][0] < h);
    }
}

/// One swap-repair pass: with no violated boundary nothing happens and the
/// result is `false`; otherwise a guarded move (`try_swap_fix`) is tried,
/// then a guarded swap (`try_chain_move`), and the result is whether either
/// changed anything.
pub fn swap_repair_iteration(
    region_of: &mut Vec<Option<usize>>,
    region_cells: &mut Vec<CellSet>,
    pre: &PreBoundaries,
    h: usize,
    w: usize,
) -> (changed: bool)
    requires
        regions_agree(old(region_of)@, old(region_cells)@, h * w),
        h * w <= usize::MAX,
        pre_on_board(*pre, h as int, w as int),
    ensures
        regions_agree(final(region_of)@, final(region_cells)@, h * w),
        final(region_cells)@.len() == old(region_cells)@.len(),
        forall|rid: int|
            0 <= rid < old(region_cells)@.len() ==> (#[trigger] final(region_cells)@[rid]).nbits()
                == old(region_cells)@[rid].nbits(),
        !changed ==> final(region_of)@ == old(region_of)@ && cells_kept(old(region_cells)@, final(region_cells)@),
        violations_of(pre_list(*pre), old(region_of)@, w as int).len() == 0 ==> !changed,
        changed ==> {
            let viol = violations_of(pre_list(*pre), old(region_of)@, w as int);
            ||| moved_an_end(viol, old(region_of)@, final(region_of)@, final(region_cells)@, *pre, h as int, w as int)
            ||| exists|i: int, side: int, nr: int, nc: int, cur: usize, nrid: usize|
                0 <= i < viol.len() && 0 <= side < 2 && #[trigger] guarded_swap(
                    old(region_of)@,
                    final(region_of)@,
                    final(region_cells)@,
                    *pre,
                    h as int,
                    w as int,
                    viol[i][2 * side] as int,
                    viol[i][2 * side + 1] as int,
                    nr,
                    nc,
                    cur,
                    nrid,
                )
        },
        !changed ==> forall|i: int, side: int, to: usize|
            0 <= i < violations_of(pre_list(*pre), old(region_of)@, w as int).len() && 0 <= side < 2 ==> !#[trigger] movable(
                old(region_of)@,
                old(region_cells)@,
                *pre,
                h as int,
                w as int,
                violations_of(pre_list(*pre), old(region_of)@, w as int)[i][2 * side] as int,
                violations_of(pre_list(*pre), old(region_of)@, w as int)[i][2 * side + 1] as int,
                to,
            ),
        !changed ==> forall|i: int, side: int, nr: int, nc: int|
            0 <= i < violations_of(pre_list(*pre), old(region_of)@, w as int).len() && 0 <= side < 2 ==> !#[trigger] swappable(
                old(region_of)@,
                old(region_cells)@,
                *pre,
                h as int,
                w as int,
                violations_of(pre_list(*pre), old(region_of)@, w as int)[i][2 * side] as int,
                violations_of(pre_list(*pre), old(region_of)@, w as int)[i][2 * side + 1] as int,
                nr,
                nc,
            ),
{
    proof {
        lemma_pre_on_board(*pre, region_of@, h as int, w as int);
    }
    let violations = collect_violations(region_of.as_slice(), pre, w);
    if violations.len() == 0 {
        return false;
    }
    if try_swap_fix(region_of, region_cells, &violations, pre, h, w) {
        return true;
    }
    let ghost rc_fix = region_cells@;
    let moved = try_chain_move(region_of, region_cells, &violations, pre, h, w);
    proof {
        if !moved {
            assert forall|i: int, side: int, nr: int, nc: int|
                0 <= i < violations@.len() && 0 <= side < 2 implies !#[trigger] swappable(
                    old(region_of)@,
                    old(region_cells)@,
                    *pre,
                    h as int,
                    w as int,
                    violations@[i][2 * side] as int,
                    violations@[i][2 * side + 1] as int,
                    nr,
                    nc,
                ) by {
                let r = violations@[i][2 * side] as int;
                let c = violations@[i][2 * side + 1] as int;
                assert(!swappable(old(region_of)@, rc_fix, *pre, h as int, w as int, r, c, nr, nc));
                assert(0 <= r < h && 0 <= c < w);
                crate::edge_csp::grid::lemma_cell_id_bound(h as int, w as int, r, c);
                if side_neighbour(h as int, w as int, r, c, nr, nc) {
                    crate::edge_csp::grid::lemma_cell_id_bound(h as int, w as int, nr, nc);
                    lemma_swappable_kept(old(region_of)@, old(region_cells)@, rc_fix, *pre, h as int, w as int, r, c, nr, nc);
                }
            }
        }
    }
    moved
}


/// Every cell still to place is on the board and unassigned.
pub open spec fn pending_ok(unassigned: CellSet, region_of: Seq<Option<usize>>) -> bool {
    &&& unassigned.wf()
    &&& forall|i: int| #[trigger] unassigned.has(i) ==> 0 <= i < region_of.len() && region_of[i] is None
}

/// `ro1` extends `ro0`: assigned cells keep their region, and each newly
/// assigned cell was pending.
pub open spec fn extends(ro0: Seq<Option<usize>>, ro1: Seq<Option<usize>>, pending0: CellSet) -> bool {
    &&& ro1.len() == ro0.len()
    &&& forall|i: int| 0 <= i < ro0.len() && (#[trigger] ro0[i]) is Some ==> ro1[i] == ro0[i]
    &&& forall|i: int| 0 <= i < ro0.len() && ro0[i] is None && (#[trigger] ro1[i]) is Some ==> pending0.has(i)
}

/// Assigns the pending cell `cell` to region `rid`.
fn assign_cell(
    region_of: &mut Vec<Option<usize>>,
    region_cells: &mut Vec<CellSet>,
    unassigned: &mut CellSet,
    cell: usize,
    rid: usize,
    n: usize,
)
    requires
        regions_agree(old(region_of)@, old(region_cells)@, n as int),
        pending_ok(*old(unassigned), old(region_of)@),
        old(unassigned).has(cell as int),
        rid < old(region_cells)@.len(),
    ensures
        regions_agree(final(region_of)@, final(region_cells)@, n as int),
        pending_ok(*final(unassigned), final(region_of)@),
        final(region_of)@ == old(region_of)@.update(cell as int, Some(rid)),
        final(region_cells)@.len() == old(region_cells)@.len(),
        forall|q: int|
            0 <= q < old(region_cells)@.len() ==> (#[trigger] final(region_cells)@[q]).nbits()
                == old(region_cells)@[q].nbits(),
        final(unassigned).nbits() == old(unassigned).nbits(),
        forall|i: int| #[trigger] final(unassigned).has(i) == (i != cell && old(unassigned).has(i)),
{
    let m = region_cells.len();
    let ghost ro0 = region_of@;
    let ghost rc0 = region_cells@;
    proof {
        unassigned.lemma_has_range(cell as int);
    }
    region_of.set(cell, Some(rid));
    region_cells[rid].insert(cell);
    unassigned.remove(cell);
    proof {
        assert(forall|q: int| 0 <= q < rc0.len() && q != rid ==> region_cells@[q] == rc0[q]);
        assert forall|q: int, i: int| 0 <= q < region_cells@.len() implies (#[trigger] region_cells@[q].has(i) <==> (0 <= i
            < n && region_of@[i] == Some(q as usize))) by {
            assert(rc0[q].has(i) <==> (0 <= i < n && ro0[i] == Some(q as usize)));
            if q != rid {
                assert(q as usize != rid);
            }
        }
        assert forall|i: int| 0 <= i < n && (#[trigger] region_of@[i]) is Some implies region_of@[i].unwrap()
            < region_cells@.len() by {
            if i != cell {
                assert(ro0[i] == region_of@[i]);
            }
        }
        assert forall|q: int| 0 <= q < region_cells@.len() implies (#[trigger] region_cells@[q]).wf() && n
            <= region_cells@[q].nbits() by {
            assert(rc0[q].wf() && n <= rc0[q].nbits());
        }
    }
}

/// The pending cell touching the most regions across open edges (the first
/// such), with those regions; `None` when no pending cell touches any.
fn best_pending_cell(
    region_of: &Vec<Option<usize>>,
    unassigned: &CellSet,
    pre: &PreBoundaries,
    h: usize,
    w: usize,
) -> (best: Option<(usize, Vec<usize>)>)
    requires
        pending_ok(*unassigned, region_of@),
        region_of@.len() == h * w,
    ensures
        match best {
            Some((cell, adj)) => {
                &&& unassigned.has(cell as int)
                &&& adj@.len() > 0
                &&& adj@.no_duplicates()
                &&& forall|rid: usize|
                    #[trigger] adj@.contains(rid) <==> open_to(
                        region_of@,
                        *pre,
                        rid,
                        cell as int / w as int,
                        cell as int % w as int,
                        h as int,
                        w as int,
                    )
            },
            None => forall|i: int, rid: usize|
                #[trigger] unassigned.has(i) ==> !#[trigger] open_to(
                    region_of@,
                    *pre,
                    rid,
                    i / w as int,
                    i % w as int,
                    h as int,
                    w as int,
                ),
        },
{
    let items = unassigned.iter();
    proof {
        unassigned.lemma_elems(unassigned.nbits() as int);
    }
    let mut best_cell: Option<usize> = None;
    let mut best_adj: Vec<usize> = Vec::new();
    let mut k: usize = 0;
    while k < items.len()
        invariant
            pending_ok(*unassigned, region_of@),
            region_of@.len() == h * w,
            items@ == unassigned.elems(),
            forall|j: int| 0 <= j < items@.len() ==> unassigned.has(#[trigger] items@[j] as int),
            forall|x: int| 0 <= x < unassigned.nbits() ==> (unassigned.has(x) <==> items@.contains(x as usize)),
            k <= items@.len(),
            match best_cell {
                Some(cell) => {
                    &&& unassigned.has(cell as int)
                    &&& best_adj@.len() > 0
                    &&& best_adj@.no_duplicates()
                    &&& forall|rid: usize|
                        #[trigger] best_adj@.contains(rid) <==> open_to(
                            region_of@,
                            *pre,
                            rid,
                            cell as int / w as int,
                            cell as int % w as int,
                            h as int,
                            w as int,
                        )
                },
                None => best_adj@.len() == 0 && forall|j: int, rid: usize|
                    0 <= j < k ==> !#[trigger] open_to(
                        region_of@,
                        *pre,
                        rid,
                        items@[j] as int / w as int,
                        items@[j] as int % w as int,
                        h as int,
                        w as int,
                    ),
            },
        decreases items@.len() - k,
    {
        let idx = items[k];
        proof {
            assert(unassigned.has(idx as int));
        }
        let adj = adjacent_regions(region_of.as_slice(), idx, pre, h, w);
        if adj.len() > best_adj.len() {
            best_cell = Some(idx);
            best_adj = adj;
        } else {
            proof {
                if best_cell is None {
                    assert forall|rid: usize| !#[trigger] open_to(region_of@, *pre, rid, idx as int / w as int, idx as int % w as int, h as int, w as int) by {
                        assert(!adj@.contains(rid));
                    }
                }
            }
        }
        k = k + 1;
    }
    match best_cell {
        Some(cell) => Some((cell, best_adj)),
        None => {
            proof {
                assert forall|i: int, rid: usize| #[trigger] unassigned.has(i) implies !#[trigger] open_to(region_of@, *pre, rid, i / w as int, i % w as int, h as int, w as int) by {
                    unassigned.lemma_has_range(i);
                    unassigned.lemma_wf_bits();
                    assert(items@.contains(i as usize));
                    let j = choose|j: int| 0 <= j < items@.len() && items@[j] == i as usize;
                    assert(items@[j] as int == i);
                }
            }
            None
        },
    }
}

/// Wavefront growth: while cells are pending, the pending cell touching the
/// most regions across open edges joins the smallest of them that it can
/// join without straddling a boundary (the smallest outright when none can).
/// Cells already assigned keep their region.  The result is `false` when
/// the deadline expired first; otherwise growth stopped with no pending cell
/// touching any region across an open edge.
pub fn wavefront_growth(
    region_of: &mut Vec<Option<usize>>,
    region_cells: &mut Vec<CellSet>,
    unassigned: &mut CellSet,
    pre: &PreBoundaries,
    h: usize,
    w: usize,
    deadline: &Option<Instant>,
) -> (done: bool)
    requires
        regions_agree(old(region_of)@, old(region_cells)@, h * w),
        pending_ok(*old(unassigned), old(region_of)@),
        h * w <= usize::MAX,
        w > 0,
    ensures
        regions_agree(final(region_of)@, final(region_cells)@, h * w),
        pending_ok(*final(unassigned), final(region_of)@),
        extends(old(region_of)@, final(region_of)@, *old(unassigned)),
        forall|i: int| #[trigger] final(unassigned).has(i) ==> old(unassigned).has(i),
        forall|i: int|
            0 <= i < h * w && old(unassigned).has(i) && !final(unassigned).has(i) ==> (#[trigger] final(region_of)@[i]) is Some,
        final(region_cells)@.len() == old(region_cells)@.len(),
        forall|q: int|
            0 <= q < old(region_cells)@.len() ==> (#[trigger] final(region_cells)@[q]).nbits()
                == old(region_cells)@[q].nbits(),
        deadline is None ==> done,
        done ==> forall|i: int, rid: usize|
            #[trigger] final(unassigned).has(i) ==> !#[trigger] open_to(
                final(region_of)@,
                *pre,
                rid,
                i / w as int,
                i % w as int,
                h as int,
                w as int,
            ),
{
    let n = h * w;
    let mut steps: u64 = 0;
    loop
        invariant
            n == h * w,
            h * w <= usize::MAX,
            w > 0,
            regions_agree(region_of@, region_cells@, h * w),
            pending_ok(*unassigned, region_of@),
            extends(old(region_of)@, region_of@, *old(unassigned)),
            unassigned.nbits() == old(unassigned).nbits(),
            forall|i: int| #[trigger] unassigned.has(i) ==> old(unassigned).has(i),
            forall|i: int|
                0 <= i < h * w && old(unassigned).has(i) && !unassigned.has(i) ==> (#[trigger] region_of@[i]) is Some,
            region_cells@.len() == old(region_cells)@.len(),
            forall|q: int|
                0 <= q < old(region_cells)@.len() ==> (#[trigger] region_cells@[q]).nbits()
                    == old(region_cells)@[q].nbits(),
        ensures
            regions_agree(region_of@, region_cells@, h * w),
            pending_ok(*unassigned, region_of@),
            extends(old(region_of)@, region_of@, *old(unassigned)),
            forall|i: int| #[trigger] unassigned.has(i) ==> old(unassigned).has(i),
            forall|i: int|
                0 <= i < h * w && old(unassigned).has(i) && !unassigned.has(i) ==> (#[trigger] region_of@[i]) is Some,
            region_cells@.len() == old(region_cells)@.len(),
            forall|q: int|
                0 <= q < old(region_cells)@.len() ==> (#[trigger] region_cells@[q]).nbits()
                    == old(region_cells)@[q].nbits(),
            forall|i: int, rid: usize|
                #[trigger] unassigned.has(i) ==> !#[trigger] open_to(
                    region_of@,
                    *pre,
                    rid,
                    i / w as int,
                    i % w as int,
                    h as int,
                    w as int,
                ),
        decreases unassigned.elems().len(),
    {
        if unassigned.is_empty() {
            break;
        }
        steps = steps.wrapping_add(1);
        if steps % 4096 == 0 && deadline_passed(deadline) {
            return false;
        }
        let (cell, best_adj) = match best_pending_cell(region_of, unassigned, pre, h, w) {
            None => {
                break;
            },
            Some(b) => b,
        };
        proof {
            assert forall|k: int| 0 <= k < best_adj@.len() implies (#[trigger] best_adj@[k]) < region_cells@.len() by {
                assert(best_adj@.contains(best_adj@[k]));
                let rid = best_adj@[k];
                let (nr, nc) = choose|nr: int, nc: int| #[trigger] side_neighbour(h as int, w as int, cell as int / w as int, cell as int % w as int, nr, nc)
                    && region_of@[nr * w + nc] == Some(rid) && !pre@.contains(spec_edge_key((cell as int / w as int) as usize, (cell as int % w as int) as usize, nr as usize, nc as usize));
                crate::edge_csp::grid::lemma_cell_id_bound(h as int, w as int, nr, nc);
            }
        }
        let sorted = sort_by_size(&best_adj, region_cells);
        proof {
            crate::edge_csp::grid::lemma_pos_bounds(h as int, w as int, cell as int);
            assert(sorted@.len() > 0) by {
                vstd::seq_lib::to_multiset_len(sorted@);
                vstd::seq_lib::to_multiset_len(best_adj@);
            }
            assert forall|k: int| 0 <= k < sorted@.len() implies (#[trigger] sorted@[k]) < region_cells@.len() by {
                vstd::seq_lib::to_multiset_contains(sorted@, sorted@[k]);
                vstd::seq_lib::to_multiset_contains(best_adj@, sorted@[k]);
                let q = choose|q: int| 0 <= q < best_adj@.len() && best_adj@[q] == sorted@[k];
                assert(best_adj@[q] < region_cells@.len());
            }
        }
        let cr = cell / w;
        let cc = cell % w;
        proof {
            assert((h * w) as int / (w as int) == h as int) by (nonlinear_arith)
                requires
                    w > 0,
            ;
        }
        let mut chosen: usize = sorted[0];
        let mut j: usize = 0;
        while j < sorted.len()
            invariant
                j <= sorted@.len(),
                sorted@.len() > 0,
                forall|k: int| 0 <= k < sorted@.len() ==> (#[trigger] sorted@[k]) < region_cells@.len(),
                chosen < region_cells@.len(),
                cr < h,
                cc < w,
                w > 0,
                region_of@.len() == h * w,
                (h * w) as int / (w as int) == h as int,
            decreases sorted@.len() - j,
        {
            if !would_violate(region_of.as_slice(), cr, cc, sorted[j], pre, w) {
                chosen = sorted[j];
                break;
            }
            j = j + 1;
        }
        if j == sorted.len() {
            chosen = sorted[0];
        }
        let ghost ro0 = region_of@;
        let ghost un0 = *unassigned;
        assign_cell(region_of, region_cells, unassigned, cell, chosen, n);
        proof {
            lemma_remove_shrinks(un0, *unassigned, cell as int);
            assert forall|i: int| 0 <= i < old(region_of)@.len() && (#[trigger] old(region_of)@[i]) is Some implies region_of@[i] == old(region_of)@[i] by {
                assert(ro0[i] == old(region_of)@[i]);
                if i == cell {
                    assert(un0.has(i));
                }
            }
        }
    }
    true
}

/// Removing a member makes the member list shorter.
proof fn lemma_remove_shrinks(a: CellSet, b: CellSet, x: int)
    requires
        a.wf(),
        b.wf(),
        a.nbits() == b.nbits(),
        a.has(x),
        forall|i: int| #[trigger] b.has(i) == (i != x && a.has(i)),
    ensures
        b.elems().len() < a.elems().len(),
{
    a.lemma_has_range(x);
    a.lemma_wf_bits();
    lemma_members_len(a);
    lemma_members_len(b);
    let sa = a.elems().to_set();
    let sb = b.elems().to_set();
    assert(sb.subset_of(sa.remove(x as usize)));
    a.lemma_has_range(x);
    assert(sa.contains(x as usize));
    vstd::set_lib::lemma_len_subset(sb, sa.remove(x as usize));
}


/// How many of the listed cells carry a symbol.
pub open spec fn present_count(cells: Seq<usize>, present: Seq<bool>) -> nat
    decreases cells.len(),
{
    if cells.len() == 0 {
        0
    } else {
        present_count(cells.drop_last(), present) + if present[cells.last() as int] {
            1nat
        } else {
            0nat
        }
    }
}

/// How many cells of region set `s` carry a symbol.
pub open spec fn symbols_in(s: CellSet, present: Seq<bool>) -> nat {
    present_count(s.elems(), present)
}

/// The number of members of `s` that carry a symbol.
fn count_symbols(s: &CellSet, present: &[bool]) -> (k: usize)
    requires
        s.wf(),
        forall|i: int| #[trigger] s.has(i) ==> i < present@.len(),
    ensures
        k == symbols_in(*s, present@),
{
    let items = s.iter();
    proof {
        s.lemma_elems(s.nbits() as int);
    }
    let mut k: usize = 0;
    let mut j: usize = 0;
    while j < items.len()
        invariant
            items@ == s.elems(),
            forall|q: int| 0 <= q < items@.len() ==> s.has(#[trigger] items@[q] as int),
            forall|i: int| #[trigger] s.has(i) ==> i < present@.len(),
            j <= items@.len(),
            k == present_count(items@.take(j as int), present@),
            k <= j,
        decreases items@.len() - j,
    {
        proof {
            assert(items@.take(j + 1).drop_last() == items@.take(j as int));
            assert(s.has(items@[j as int] as int));
        }
        if present[items[j]] {
            k = k + 1;
        }
        j = j + 1;
    }
    proof {
        assert(items@.take(j as int) == items@);
    }
    k
}

/// Moves cell `idx` from region `from` to region `to`, given `left`: the set
/// of `from` without `idx`.
fn commit_move(
    region_of: &mut Vec<Option<usize>>,
    region_cells: &mut Vec<CellSet>,
    idx: usize,
    from: usize,
    to: usize,
    left: CellSet,
    n: usize,
)
    requires
        regions_agree(old(region_of)@, old(region_cells)@, n as int),
        idx < n,
        old(region_of)@[idx as int] == Some(from),
        to != from,
        to < old(region_cells)@.len(),
        left.wf(),
        left.nbits() == old(region_cells)@[from as int].nbits(),
        forall|i: int| #[trigger] left.has(i) == (i != idx && old(region_cells)@[from as int].has(i)),
    ensures
        regions_agree(final(region_of)@, final(region_cells)@, n as int),
        final(region_of)@ == old(region_of)@.update(idx as int, Some(to)),
        final(region_cells)@.len() == old(region_cells)@.len(),
        forall|q: int|
            0 <= q < old(region_cells)@.len() ==> (#[trigger] final(region_cells)@[q]).nbits()
                == old(region_cells)@[q].nbits(),
        final(region_cells)@[from as int] == left,
{
    let m = region_cells.len();
    let ghost ro0 = region_of@;
    let ghost rc0 = region_cells@;
    region_of.set(idx, Some(to));
    region_cells.set(from, left);
    let ghost rc1 = region_cells@;
    region_cells[to].insert(idx);
    proof {
        assert(rc1 == rc0.update(from as int, left));
        assert(forall|q: int| 0 <= q < rc1.len() && q != to ==> region_cells@[q] == rc1[q]);
        assert forall|q: int, i: int| 0 <= q < region_cells@.len() implies (#[trigger] region_cells@[q].has(i) <==> (0 <= i
            < n && region_of@[i] == Some(q as usize))) by {
            assert(rc0[q].has(i) <==> (0 <= i < n && ro0[i] == Some(q as usize)));
            if q != from && q != to {
                assert(q as usize != from && q as usize != to);
                assert(region_cells@[q] == rc0[q]);
            } else if q == from {
                assert(q as usize == from);
            } else {
                assert(q as usize == to);
                assert(rc1[q] == rc0[q]);
            }
        }
        assert forall|i: int| 0 <= i < n && (#[trigger] region_of@[i]) is Some implies region_of@[i].unwrap()
            < region_cells@.len() by {
            if i != idx {
                assert(ro0[i] == region_of@[i]);
            }
        }
        assert forall|q: int| 0 <= q < region_cells@.len() implies (#[trigger] region_cells@[q]).wf() && n
            <= region_cells@[q].nbits() by {
            assert(rc0[q].wf() && n <= rc0[q].nbits());
        }
    }
}


/// Cell `(r, c)` has a side neighbour in region `rid`.
pub open spec fn touches(region_of: Seq<Option<usize>>, rid: usize, r: int, c: int, h: int, w: int) -> bool {
    exists|nr: int, nc: int| #[trigger] side_neighbour(h, w, r, c, nr, nc) && region_of[nr * w + nc] == Some(rid)
}

/// Whether cell `(r, c)` has a side neighbour in region `rid`.
fn touches_region(region_of: &Vec<Option<usize>>, rid: usize, r: usize, c: usize, h: usize, w: usize) -> (b: bool)
    requires
        r < h,
        c < w,
        region_of@.len() == h * w,
    ensures
        b == touches(region_of@, rid, r as int, c as int, h as int, w as int),
{
    let len = region_of.len();
    let nbrs = neighbor_positions(r, c, h, w);
    let mut t: usize = 0;
    while t < nbrs.len()
        invariant
            r < h,
            c < w,
            len == region_of@.len(),
            region_of@.len() == h * w,
            t <= nbrs@.len(),
            forall|i: int|
                0 <= i < nbrs@.len() ==> {
                    let (nr, nc) = #[trigger] nbrs@[i];
                    &&& nr < h && nc < w
                    &&& (nr == r && (nc + 1 == c || c + 1 == nc)) || (nc == c && (nr + 1 == r || r + 1 == nr))
                },
            forall|nr: usize, nc: usize|
                nr < h && nc < w && ((nr == r && (nc + 1 == c || c + 1 == nc)) || (nc == c && (nr + 1 == r || r
                    + 1 == nr))) ==> #[trigger] nbrs@.contains((nr, nc)),
            forall|i: int| 0 <= i < t ==> region_of@[(#[trigger] nbrs@[i]).0 * w + nbrs@[i].1] != Some(rid),
        decreases nbrs@.len() - t,
    {
        let (nr, nc) = nbrs[t];
        proof {
            crate::edge_csp::grid::lemma_cell_id_bound(h as int, w as int, nr as int, nc as int);
        }
        if region_of[nr * w + nc] == Some(rid) {
            proof {
                assert(side_neighbour(h as int, w as int, r as int, c as int, nr as int, nc as int));
            }
            return true;
        }
        t = t + 1;
    }
    proof {
        assert forall|nr: int, nc: int| #[trigger] side_neighbour(h as int, w as int, r as int, c as int, nr, nc) implies region_of@[nr * w + nc] != Some(rid) by {
            assert(nbrs@.contains((nr as usize, nc as usize)));
            let i = choose|i: int| 0 <= i < nbrs@.len() && nbrs@[i] == (nr as usize, nc as usize);
            assert(nbrs@[i] == (nr as usize, nc as usize));
        }
    }
    false
}

/// `ro1` comes from `ro0` by moving a cell without a symbol out of region
/// `from`, which holds several symbols, into a region `to` it touches, which
/// holds none, leaving `from` connected in `rc1`.
pub open spec fn symbol_move(
    ro0: Seq<Option<usize>>,
    rc0: Seq<CellSet>,
    ro1: Seq<Option<usize>>,
    rc1: Seq<CellSet>,
    present: Seq<bool>,
    h: int,
    w: int,
    idx: int,
    from: usize,
    to: usize,
) -> bool {
    &&& 0 <= idx < ro0.len() && !present[idx]
    &&& ro0[idx] == Some(from) && from != to
    &&& symbols_in(rc0[from as int], present) > 1 && symbols_in(rc0[to as int], present) == 0
    &&& touches(ro0, to, idx / w, idx % w, h, w)
    &&& ro1 == ro0.update(idx, Some(to))
    &&& set_connected(rc1[from as int], w)
}

/// Cell `idx` of region `from` (among `0..m`, holding several symbols) can
/// move into region `to` (among `0..m`, holding none): it carries no
/// symbol, `to` touches it, and `from` stays connected (`symbol_move`).
pub open spec fn symbol_movable(
    ro: Seq<Option<usize>>,
    rc: Seq<CellSet>,
    present: Seq<bool>,
    h: int,
    w: int,
    m: int,
    idx: int,
    from: usize,
    to: usize,
) -> bool {
    &&& from < m && to < m
    &&& 0 <= idx < ro.len() && !present[idx]
    &&& ro[idx] == Some(from) && from != to
    &&& symbols_in(rc[from as int], present) > 1 && symbols_in(rc[to as int], present) == 0
    &&& touches(ro, to, idx / w, idx % w, h, w)
    &&& leaves_connected(rc[from as int], idx, w)
}

enum Pass {
    Balanced,
    Stuck,
    Moved,
}

/// One balancing pass over regions `0..m`: `Balanced` when each holds
/// exactly one symbol, `Stuck` when no region holds several or none holds
/// any, or no move is possible, and `Moved` after one `symbol_move`.
fn symbol_pass(
    region_of: &mut Vec<Option<usize>>,
    region_cells: &mut Vec<CellSet>,
    symbol_present: &[bool],
    m: usize,
    h: usize,
    w: usize,
) -> (out: Pass)
    requires
        regions_agree(old(region_of)@, old(region_cells)@, h * w),
        m <= old(region_cells)@.len(),
        symbol_present@.len() == h * w,
        h * w <= usize::MAX,
        w > 0,
    ensures
        regions_agree(final(region_of)@, final(region_cells)@, h * w),
        final(region_cells)@.len() == old(region_cells)@.len(),
        forall|q: int|
            0 <= q < old(region_cells)@.len() ==> (#[trigger] final(region_cells)@[q]).nbits()
                == old(region_cells)@[q].nbits(),
        (out is Balanced) == forall|i: int| 0 <= i < m ==> #[trigger] symbols_in(old(region_cells)@[i], symbol_present@) == 1,
        out is Stuck ==> forall|idx: int, from: usize, to: usize| !#[trigger] symbol_movable(old(region_of)@, old(region_cells)@, symbol_present@, h as int, w as int, m as int, idx, from, to),
        !(out is Moved) ==> final(region_of)@ == old(region_of)@ && final(region_cells)@ == old(region_cells)@,
        out is Moved ==> exists|idx: int, from: usize, to: usize|
            #[trigger] symbol_move(
                old(region_of)@,
                old(region_cells)@,
                final(region_of)@,
                final(region_cells)@,
                symbol_present@,
                h as int,
                w as int,
                idx,
                from,
                to,
            ),
{
    let n = h * w;
    let ghost rc = region_cells@;
    let mut excess: Vec<usize> = Vec::new();
    let mut deficit: Vec<usize> = Vec::new();
    let mut i: usize = 0;
    while i < m
        invariant
            regions_agree(region_of@, region_cells@, h * w),
            region_cells@ == rc,
            m <= rc.len(),
            n == h * w,
            symbol_present@.len() == h * w,
            i <= m,
            forall|k: int| 0 <= k < excess@.len() ==> (#[trigger] excess@[k]) < m && symbols_in(rc[excess@[k] as int], symbol_present@) > 1,
            forall|k: int| 0 <= k < deficit@.len() ==> (#[trigger] deficit@[k]) < m && symbols_in(rc[deficit@[k] as int], symbol_present@) == 0,
            forall|q: int| 0 <= q < i ==> (#[trigger] symbols_in(rc[q], symbol_present@) > 1 ==> excess@.contains(q as usize))
                && (symbols_in(rc[q], symbol_present@) == 0 ==> deficit@.contains(q as usize)),
        decreases m - i,
    {
        let k = count_symbols(&region_cells[i], symbol_present);
        let ghost e0 = excess@;
        let ghost d0 = deficit@;
        if k > 1 {
            excess.push(i);
        } else if k == 0 {
            deficit.push(i);
        }
        proof {
            assert forall|q: int| 0 <= q < i + 1 implies (#[trigger] symbols_in(rc[q], symbol_present@) > 1 ==> excess@.contains(q as usize))
                && (symbols_in(rc[q], symbol_present@) == 0 ==> deficit@.contains(q as usize)) by {
                if q < i {
                    if symbols_in(rc[q], symbol_present@) > 1 {
                        let j = choose|j: int| 0 <= j < e0.len() && e0[j] == q as usize;
                        assert(excess@[j] == q as usize);
                    }
                    if symbols_in(rc[q], symbol_present@) == 0 {
                        let j = choose|j: int| 0 <= j < d0.len() && d0[j] == q as usize;
                        assert(deficit@[j] == q as usize);
                    }
                } else {
                    if k > 1 {
                        assert(excess@[e0.len() as int] == q as usize);
                    } else if k == 0 {
                        assert(deficit@[d0.len() as int] == q as usize);
                    }
                }
            }
        }
        i = i + 1;
    }
    if excess.len() == 0 && deficit.len() == 0 {
        proof {
            assert forall|q: int| 0 <= q < m implies #[trigger] symbols_in(rc[q], symbol_present@) == 1 by {
                if symbols_in(rc[q], symbol_present@) > 1 {
                    assert(excess@.contains(q as usize));
                }
                if symbols_in(rc[q], symbol_present@) == 0 {
                    assert(deficit@.contains(q as usize));
                }
            }
        }
        return Pass::Balanced;
    }
    if excess.len() == 0 || deficit.len() == 0 {
        proof {
            assert forall|idx: int, from: usize, to: usize| !#[trigger] symbol_movable(old(region_of)@, old(region_cells)@, symbol_present@, h as int, w as int, m as int, idx, from, to) by {
                if symbol_movable(old(region_of)@, old(region_cells)@, symbol_present@, h as int, w as int, m as int, idx, from, to) {
                    assert(excess@.contains(from));
                    assert(deficit@.contains(to));
                }
            }
            if excess@.len() > 0 {
                assert(symbols_in(rc[excess@[0] as int], symbol_present@) > 1);
            } else {
                assert(symbols_in(rc[deficit@[0] as int], symbol_present@) == 0);
            }
        }
        return Pass::Stuck;
    }
    let mut a: usize = 0;
    while a < excess.len()
        invariant
            regions_agree(region_of@, region_cells@, h * w),
            region_of@ == old(region_of)@,
            region_cells@ == rc,
            rc == old(region_cells)@,
            m <= rc.len(),
            n == h * w,
            h * w <= usize::MAX,
            w > 0,
            symbol_present@.len() == h * w,
            forall|k: int| 0 <= k < excess@.len() ==> (#[trigger] excess@[k]) < m && symbols_in(rc[excess@[k] as int], symbol_present@) > 1,
            forall|k: int| 0 <= k < deficit@.len() ==> (#[trigger] deficit@[k]) < m && symbols_in(rc[deficit@[k] as int], symbol_present@) == 0,
            forall|q: int| 0 <= q < m ==> (#[trigger] symbols_in(rc[q], symbol_present@) > 1 ==> excess@.contains(q as usize))
                && (symbols_in(rc[q], symbol_present@) == 0 ==> deficit@.contains(q as usize)),
            a <= excess@.len(),
            excess@.len() > 0,
            forall|a2: int, idx: int, to: usize| 0 <= a2 < a ==> !#[trigger] symbol_movable(old(region_of)@, old(region_cells)@, symbol_present@, h as int, w as int, m as int, idx, excess@[a2], to),
        decreases excess@.len() - a,
    {
        let ei = excess[a];
        proof {
            assert(excess@[a as int] < m);
        }
        let items = region_cells[ei].iter();
        proof {
            rc[ei as int].lemma_elems(rc[ei as int].nbits() as int);
        }
        let mut j: usize = 0;
        while j < items.len()
            invariant
                regions_agree(region_of@, region_cells@, h * w),
                region_of@ == old(region_of)@,
                region_cells@ == rc,
                rc == old(region_cells)@,
                m <= rc.len(),
                ei < m,
                symbols_in(rc[ei as int], symbol_present@) > 1,
                n == h * w,
                h * w <= usize::MAX,
                w > 0,
                symbol_present@.len() == h * w,
                items@ == rc[ei as int].elems(),
                forall|q: int| 0 <= q < items@.len() ==> rc[ei as int].has(#[trigger] items@[q] as int),
                forall|k: int| 0 <= k < deficit@.len() ==> (#[trigger] deficit@[k]) < m && symbols_in(rc[deficit@[k] as int], symbol_present@) == 0,
                forall|q: int| 0 <= q < m ==> (#[trigger] symbols_in(rc[q], symbol_present@) > 1 ==> excess@.contains(q as usize))
                    && (symbols_in(rc[q], symbol_present@) == 0 ==> deficit@.contains(q as usize)),
                a < excess@.len(),
                ei == excess@[a as int],
                excess@.len() > 0,
                forall|a2: int, idx: int, to: usize| 0 <= a2 < a ==> !#[trigger] symbol_movable(old(region_of)@, old(region_cells)@, symbol_present@, h as int, w as int, m as int, idx, excess@[a2], to),
                j <= items@.len(),
                forall|j2: int, to: usize| 0 <= j2 < j ==> !#[trigger] symbol_movable(old(region_of)@, old(region_cells)@, symbol_present@, h as int, w as int, m as int, items@[j2] as int, ei, to),
            decreases items@.len() - j,
        {
            let idx = items[j];
            proof {
                assert(rc[ei as int].has(idx as int));
                assert(region_of@[idx as int] == Some(ei));
            }
            if symbol_present[idx] {
                proof {
                    assert forall|to: usize| !#[trigger] symbol_movable(old(region_of)@, old(region_cells)@, symbol_present@, h as int, w as int, m as int, idx as int, ei, to) by {}
                }
                j = j + 1;
                continue;
            }
            proof {
                crate::edge_csp::grid::lemma_pos_bounds(h as int, w as int, idx as int);
            }
            let r = idx / w;
            let c = idx % w;
            let mut b: usize = 0;
            while b < deficit.len()
                invariant
                    regions_agree(region_of@, region_cells@, h * w),
                    region_of@ == old(region_of)@,
                    region_cells@ == rc,
                    rc == old(region_cells)@,
                    m <= rc.len(),
                    ei < m,
                    symbols_in(rc[ei as int], symbol_present@) > 1,
                    n == h * w,
                    h * w <= usize::MAX,
                    w > 0,
                    r < h,
                    c < w,
                    r == idx / w,
                    c == idx % w,
                    idx < h * w,
                    region_of@[idx as int] == Some(ei),
                    !symbol_present@[idx as int],
                    forall|k: int| 0 <= k < deficit@.len() ==> (#[trigger] deficit@[k]) < m && symbols_in(rc[deficit@[k] as int], symbol_present@) == 0,
                    forall|q: int| 0 <= q < m ==> (#[trigger] symbols_in(rc[q], symbol_present@) > 1 ==> excess@.contains(q as usize))
                        && (symbols_in(rc[q], symbol_present@) == 0 ==> deficit@.contains(q as usize)),
                    a < excess@.len(),
                    ei == excess@[a as int],
                    excess@.len() > 0,
                    forall|a2: int, idx: int, to: usize| 0 <= a2 < a ==> !#[trigger] symbol_movable(old(region_of)@, old(region_cells)@, symbol_present@, h as int, w as int, m as int, idx, excess@[a2], to),
                    j < items@.len(),
                    idx == items@[j as int],
                    items@ == rc[ei as int].elems(),
                    forall|j2: int, to: usize| 0 <= j2 < j ==> !#[trigger] symbol_movable(old(region_of)@, old(region_cells)@, symbol_present@, h as int, w as int, m as int, items@[j2] as int, ei, to),
                    b <= deficit@.len(),
                    forall|b2: int| 0 <= b2 < b ==> !#[trigger] symbol_movable(old(region_of)@, old(region_cells)@, symbol_present@, h as int, w as int, m as int, idx as int, ei, deficit@[b2]),
                decreases deficit@.len() - b,
            {
                let di = deficit[b];
                proof {
                    assert(deficit@[b as int] < m);
                    assert(di != ei);
                }
                if touches_region(region_of, di, r, c, h, w) {
                    let mut left = region_cells[ei].copy();
                    left.remove(idx);
                    if !is_connected_set(&left, w) {
                        proof {
                            assert(removes_one(left, rc[ei as int], idx as int));
                            assert(!leaves_connected(rc[ei as int], idx as int, w as int));
                        }
                    }
                    if is_connected_set(&left, w) {
                        commit_move(region_of, region_cells, idx, ei, di, left, n);
                        proof {
                            assert(symbol_move(old(region_of)@, old(region_cells)@, region_of@, region_cells@, symbol_present@, h as int, w as int, idx as int, ei, di));
                        }
                        return Pass::Moved;
                    }
                }
                b = b + 1;
            }
            proof {
                assert forall|to: usize| !#[trigger] symbol_movable(old(region_of)@, old(region_cells)@, symbol_present@, h as int, w as int, m as int, idx as int, ei, to) by {
                    if symbol_movable(old(region_of)@, old(region_cells)@, symbol_present@, h as int, w as int, m as int, idx as int, ei, to) {
                        assert(deficit@.contains(to));
                        let b2 = choose|b2: int| 0 <= b2 < deficit@.len() && deficit@[b2] == to;
                        assert(!symbol_movable(old(region_of)@, old(region_cells)@, symbol_present@, h as int, w as int, m as int, idx as int, ei, deficit@[b2]));
                    }
                }
            }
            j = j + 1;
        }
        proof {
            assert forall|idx: int, to: usize| !#[trigger] symbol_movable(old(region_of)@, old(region_cells)@, symbol_present@, h as int, w as int, m as int, idx, ei, to) by {
                if symbol_movable(old(region_of)@, old(region_cells)@, symbol_present@, h as int, w as int, m as int, idx, ei, to) {
                    assert(rc[ei as int].has(idx));
                    assert(items@.contains(idx as usize));
                    let j2 = choose|j2: int| 0 <= j2 < items@.len() && items@[j2] == idx as usize;
                    assert(!symbol_movable(old(region_of)@, old(region_cells)@, symbol_present@, h as int, w as int, m as int, items@[j2] as int, ei, to));
                }
            }
        }
        a = a + 1;
    }
    proof {
        assert forall|idx: int, from: usize, to: usize| !#[trigger] symbol_movable(old(region_of)@, old(region_cells)@, symbol_present@, h as int, w as int, m as int, idx, from, to) by {
            if symbol_movable(old(region_of)@, old(region_cells)@, symbol_present@, h as int, w as int, m as int, idx, from, to) {
                assert(excess@.contains(from));
                let a2 = choose|a2: int| 0 <= a2 < excess@.len() && excess@[a2] == from;
                assert(!symbol_movable(old(region_of)@, old(region_cells)@, symbol_present@, h as int, w as int, m as int, idx, excess@[a2], to));
            }
        }
        assert(symbols_in(rc[excess@[0] as int], symbol_present@) > 1);
    }
    Pass::Stuck
}


/// Most balancing passes of the single-symbol repair.
pub const SYMBOL_REPAIR_PASSES: usize = 200;

/// Moves cells without a symbol from regions holding several symbols into
/// touching regions holding none (see `symbol_move`), one per pass, until
/// every region among `0..m` holds exactly one symbol, no move is possible,
/// or the passes run out.  Symbol cells keep their region and no cell is
/// assigned or unassigned.  The result is whether every region among
/// `0..m` ends with a symbol.
pub fn repair_symbol_distribution(
    region_of: &mut Vec<Option<usize>>,
    region_cells: &mut Vec<CellSet>,
    symbol_present: &[bool],
    m: usize,
    h: usize,
    w: usize,
) -> (ok: bool)
    requires
        regions_agree(old(region_of)@, old(region_cells)@, h * w),
        m <= old(region_cells)@.len(),
        symbol_present@.len() == h * w,
        h * w <= usize::MAX,
        w > 0,
    ensures
        regions_agree(final(region_of)@, final(region_cells)@, h * w),
        final(region_cells)@.len() == old(region_cells)@.len(),
        forall|q: int|
            0 <= q < old(region_cells)@.len() ==> (#[trigger] final(region_cells)@[q]).nbits()
                == old(region_cells)@[q].nbits(),
        forall|i: int|
            0 <= i < h * w ==> (#[trigger] final(region_of)@[i] is Some) == (old(region_of)@[i] is Some),
        forall|i: int| 0 <= i < h * w && symbol_present@[i] ==> #[trigger] final(region_of)@[i] == old(region_of)@[i],
        ok == forall|i: int| 0 <= i < m ==> #[trigger] symbols_in(final(region_cells)@[i], symbol_present@) > 0,
{
    let mut pass: usize = 0;
    while pass < SYMBOL_REPAIR_PASSES
        invariant
            regions_agree(region_of@, region_cells@, h * w),
            m <= old(region_cells)@.len(),
            symbol_present@.len() == h * w,
            h * w <= usize::MAX,
            w > 0,
            region_cells@.len() == old(region_cells)@.len(),
            forall|q: int|
                0 <= q < old(region_cells)@.len() ==> (#[trigger] region_cells@[q]).nbits()
                    == old(region_cells)@[q].nbits(),
            forall|i: int| 0 <= i < h * w ==> (#[trigger] region_of@[i] is Some) == (old(region_of)@[i] is Some),
            forall|i: int| 0 <= i < h * w && symbol_present@[i] ==> #[trigger] region_of@[i] == old(region_of)@[i],
        decreases SYMBOL_REPAIR_PASSES - pass,
    {
        let ghost ro0 = region_of@;
        let ghost rc0 = region_cells@;
        match symbol_pass(region_of, region_cells, symbol_present, m, h, w) {
            Pass::Balanced => {
                proof {
                    assert forall|i: int| 0 <= i < m implies #[trigger] symbols_in(region_cells@[i], symbol_present@) > 0 by {
                        assert(symbols_in(rc0[i], symbol_present@) == 1);
                    }
                }
                return true;
            },
            Pass::Stuck => {
                break;
            },
            Pass::Moved => {
                proof {
                    let (idx, from, to) = choose|idx: int, from: usize, to: usize| #[trigger] symbol_move(ro0, rc0, region_of@, region_cells@, symbol_present@, h as int, w as int, idx, from, to);
                    assert forall|i: int| 0 <= i < h * w implies (#[trigger] region_of@[i] is Some) == (old(region_of)@[i] is Some) by {
                        assert(ro0[i] is Some == old(region_of)@[i] is Some);
                    }
                    assert forall|i: int| 0 <= i < h * w && symbol_present@[i] implies #[trigger] region_of@[i] == old(region_of)@[i] by {
                        assert(ro0[i] == old(region_of)@[i]);
                    }
                }
            },
        }
        pass = pass + 1;
    }
    let mut i: usize = 0;
    while i < m
        invariant
            regions_agree(region_of@, region_cells@, h * w),
            m <= region_cells@.len(),
            symbol_present@.len() == h * w,
            i <= m,
            forall|q: int| 0 <= q < i ==> #[trigger] symbols_in(region_cells@[q], symbol_present@) > 0,
            region_cells@.len() == old(region_cells)@.len(),
            forall|q: int|
                0 <= q < old(region_cells)@.len() ==> (#[trigger] region_cells@[q]).nbits()
                    == old(region_cells)@[q].nbits(),
            forall|i: int| 0 <= i < h * w ==> (#[trigger] region_of@[i] is Some) == (old(region_of)@[i] is Some),
            forall|i: int| 0 <= i < h * w && symbol_present@[i] ==> #[trigger] region_of@[i] == old(region_of)@[i],
        decreases m - i,
    {
        if count_symbols(&region_cells[i], symbol_present) == 0 {
            return false;
        }
        i = i + 1;
    }
    true
}


/// Most swap-repair passes of the single-symbol growth.
pub const SWAP_REPAIR_ITER: usize = 500;

/// The cells of `labels` that carry a symbol, one flag per cell.
fn symbol_flags(puzzle: &Puzzle) -> (flags: Vec<bool>)
    requires
        puzzle.wf(),
    ensures
        flags@.len() == puzzle.height * puzzle.width,
        forall|i: int|
            0 <= i < flags@.len() ==> (#[trigger] flags@[i]) == puzzle.cell(i / puzzle.width as int, i % puzzle.width as int).symbol is Some,
{
    let h = puzzle.height;
    let w = puzzle.width;
    proof {
        crate::rose::pin::lemma_board_room(*puzzle);
    }
    let n = h * w;
    let mut flags: Vec<bool> = Vec::new();
    let mut idx: usize = 0;
    while idx < n
        invariant
            puzzle.wf(),
            h == puzzle.height,
            w == puzzle.width,
            n == h * w,
            idx <= n,
            flags@.len() == idx,
            forall|i: int| 0 <= i < idx ==> (#[trigger] flags@[i]) == puzzle.cell(i / w as int, i % w as int).symbol is Some,
        decreases n - idx,
    {
        proof {
            crate::edge_csp::grid::lemma_pos_bounds(h as int, w as int, idx as int);
        }
        flags.push(puzzle.cells[idx / w][idx % w].symbol.is_some());
        idx = idx + 1;
    }
    flags
}

/// Some assignment of cell sets agrees with `labels` and gives each of the
/// first `m` regions exactly one symbol cell.
pub open spec fn one_symbol_each(labels: Seq<Option<usize>>, present: Seq<bool>, m: int, n: int) -> bool {
    exists|rc: Seq<CellSet>|
        #[trigger] regions_agree(labels, rc, n) && m <= rc.len() && forall|i: int|
            0 <= i < m ==> #[trigger] symbols_in(rc[i], present) == 1
}

/// The seeds are board cells in strictly increasing order.
/// The flat cell `x` is fillable and holds a symbol of the first type.
pub open spec fn is_first_type_cell(p: Puzzle, types: Seq<String>, x: int) -> bool {
    let cl = p.cell(x / p.width as int, x % p.width as int);
    !cl.blocked && cl.symbol is Some && cl.symbol.unwrap()@ == types[0]@
}

/// The first-type cells among the first `n` flat cells, in order.
pub open spec fn first_type_cells(p: Puzzle, types: Seq<String>, n: int) -> Seq<usize>
    decreases n,
{
    if n <= 0 {
        Seq::empty()
    } else if is_first_type_cell(p, types, n - 1) {
        first_type_cells(p, types, n - 1).push((n - 1) as usize)
    } else {
        first_type_cells(p, types, n - 1)
    }
}

pub open spec fn seeds_ok(seeds: Seq<usize>, n: int) -> bool {
    &&& forall|i: int| 0 <= i < seeds.len() ==> (#[trigger] seeds[i]) < n
    &&& forall|i: int, j: int| 0 <= i < j < seeds.len() ==> #[trigger] seeds[i] < #[trigger] seeds[j]
}

/// Single-symbol growth: region `i` starts as seed `i`; the pending cells of
/// `all_positions` grow onto the regions (`wavefront_growth`), violated
/// boundaries are repaired (`swap_repair_iteration`, at most
/// `SWAP_REPAIR_ITER` passes) and symbols rebalanced
/// (`repair_symbol_distribution`).  The region label of every cell is
/// returned when each region then holds exactly one symbol cell; `None`
/// when it does not or the deadline passed.
pub fn solve_singlesymbol(
    puzzle: &Puzzle,
    pre: &PreBoundaries,
    seeds: &Vec<usize>,
    all_positions: &CellSet,
    deadline: &Option<Instant>,
) -> (res: Option<Vec<Option<usize>>>)
    requires
        puzzle.wf(),
        puzzle.width > 0,
        pre_on_board(*pre, puzzle.height as int, puzzle.width as int),
        seeds_ok(seeds@, puzzle.height * puzzle.width),
        all_positions.wf(),
        puzzle.height * puzzle.width <= all_positions.nbits(),
        forall|i: int| #[trigger] all_positions.has(i) ==> i < puzzle.height * puzzle.width,
    ensures
        res matches Some(labels) ==> {
            &&& labels@.len() == puzzle.height * puzzle.width
            &&& one_symbol_each(
                labels@,
                Seq::new(labels@.len(), |i: int| puzzle.cell(i / puzzle.width as int, i % puzzle.width as int).symbol is Some),
                seeds@.len() as int,
                puzzle.height * puzzle.width,
            )
        },
{
    let h = puzzle.height;
    let w = puzzle.width;
    proof {
        crate::rose::pin::lemma_board_room(*puzzle);
    }
    let n = h * w;
    let m = seeds.len();
    let mut region_of: Vec<Option<usize>> = Vec::new();
    let mut k: usize = 0;
    while k < n
        invariant
            k <= n,
            region_of@ == Seq::new(k as nat, |i: int| None::<usize>),
        decreases n - k,
    {
        region_of.push(None);
        k = k + 1;
    }
    let mut region_cells: Vec<CellSet> = Vec::new();
    let mut k: usize = 0;
    while k < m
        invariant
            k <= m,
            n == h * w,
            n <= usize::MAX - 63,
            region_cells@.len() == k,
            forall|q: int| 0 <= q < k ==> (#[trigger] region_cells@[q]).wf() && n <= region_cells@[q].nbits(),
            forall|q: int, x: int| 0 <= q < k ==> !(#[trigger] region_cells@[q].has(x)),
        decreases m - k,
    {
        region_cells.push(CellSet::new(n));
        k = k + 1;
    }
    let mut unassigned = all_positions.copy();
    let mut i: usize = 0;
    while i < m
        invariant
            n == h * w,
            m == seeds@.len(),
            seeds_ok(seeds@, n as int),
            i <= m,
            region_of@.len() == n,
            region_cells@.len() == m,
            forall|q: int| 0 <= q < m ==> (#[trigger] region_cells@[q]).wf() && n <= region_cells@[q].nbits(),
            forall|q: int| 0 <= q < i ==> region_of@[(#[trigger] seeds@[q]) as int] == Some(q as usize),
            forall|x: int| 0 <= x < n && (#[trigger] region_of@[x]) is Some ==> exists|q: int| 0 <= q < i && seeds@[q] == x && region_of@[x] == Some(q as usize),
            forall|q: int, x: int| 0 <= q < m ==> (#[trigger] region_cells@[q].has(x) <==> (q < i && x == seeds@[q])),
            unassigned.wf(),
            unassigned.nbits() == all_positions.nbits(),
            n <= unassigned.nbits(),
            forall|x: int| #[trigger] unassigned.has(x) <==> (all_positions.has(x) && forall|q: int| 0 <= q < i ==> seeds@[q] != x),
        decreases m - i,
    {
        let seed = seeds[i];
        proof {
            assert(seeds@[i as int] < n);
        }
        let ghost ro0 = region_of@;
        let ghost rc0 = region_cells@;
        region_of.set(seed, Some(i));
        region_cells[i].insert(seed);
        unassigned.remove(seed);
        proof {
            assert(forall|q: int| 0 <= q < m && q != i ==> region_cells@[q] == rc0[q]);
            assert forall|q: int| 0 <= q < i + 1 implies region_of@[(#[trigger] seeds@[q]) as int] == Some(q as usize) by {
                if q < i {
                    assert(seeds@[q] < seeds@[i as int]);
                }
            }
            assert forall|x: int| 0 <= x < n && (#[trigger] region_of@[x]) is Some implies exists|q: int| 0 <= q < i + 1 && seeds@[q] == x && region_of@[x] == Some(q as usize) by {
                if x != seed {
                    assert(ro0[x] is Some);
                    let q = choose|q: int| 0 <= q < i && seeds@[q] == x && ro0[x] == Some(q as usize);
                    assert(region_of@[x] == Some(q as usize));
                } else {
                    assert(seeds@[i as int] == x);
                }
            }
            assert forall|q: int, x: int| 0 <= q < m implies (#[trigger] region_cells@[q].has(x) <==> (q < i + 1 && x == seeds@[q])) by {
                assert(rc0[q].has(x) <==> (q < i && x == seeds@[q]));
            }
            assert forall|x: int| #[trigger] unassigned.has(x) <==> (all_positions.has(x) && forall|q: int| 0 <= q < i + 1 ==> seeds@[q] != x) by {
                if !(forall|q: int| 0 <= q < i + 1 ==> seeds@[q] != x) {
                    let q = choose|q: int| 0 <= q < i + 1 && seeds@[q] == x;
                    if q < i {
                        assert(!(forall|q2: int| 0 <= q2 < i ==> seeds@[q2] != x));
                    }
                }
            }
        }
        i = i + 1;
    }
    proof {
        assert(regions_agree(region_of@, region_cells@, n as int)) by {
            assert forall|q: int, x: int| 0 <= q < region_cells@.len() implies (#[trigger] region_cells@[q].has(x) <==> (0 <= x < n
                && region_of@[x] == Some(q as usize))) by {
                if 0 <= x < n && region_of@[x] == Some(q as usize) {
                    let q2 = choose|q2: int| 0 <= q2 < m && seeds@[q2] == x && region_of@[x] == Some(q2 as usize);
                    assert(q2 == q);
                }
                if region_cells@[q].has(x) {
                    assert(region_of@[seeds@[q] as int] == Some(q as usize));
                }
            }
            assert forall|x: int| 0 <= x < n && (#[trigger] region_of@[x]) is Some implies region_of@[x].unwrap() < region_cells@.len() by {
                let q = choose|q: int| 0 <= q < m && seeds@[q] == x && region_of@[x] == Some(q as usize);
            }
        }
        assert forall|x: int| #[trigger] unassigned.has(x) implies 0 <= x < region_of@.len() && region_of@[x] is None by {
            unassigned.lemma_has_range(x);
            if region_of@[x] is Some {
                let q = choose|q: int| 0 <= q < m && seeds@[q] == x && region_of@[x] == Some(q as usize);
            }
        }
    }
    if !wavefront_growth(&mut region_of, &mut region_cells, &mut unassigned, pre, h, w, deadline) {
        return None;
    }
    let mut pass: usize = 0;
    while pass < SWAP_REPAIR_ITER
        invariant
            regions_agree(region_of@, region_cells@, h * w),
            region_cells@.len() == m,
            m == seeds@.len(),
            h * w <= usize::MAX,
            w > 0,
            pre_on_board(*pre, h as int, w as int),
        decreases SWAP_REPAIR_ITER - pass,
    {
        if !swap_repair_iteration(&mut region_of, &mut region_cells, pre, h, w) {
            break;
        }
        pass = pass + 1;
    }
    let flags = symbol_flags(puzzle);
    repair_symbol_distribution(&mut region_of, &mut region_cells, flags.as_slice(), m, h, w);
    let mut i: usize = 0;
    while i < m
        invariant
            regions_agree(region_of@, region_cells@, h * w),
            region_cells@.len() == m,
            flags@.len() == h * w,
            i <= m,
            forall|q: int| 0 <= q < i ==> #[trigger] symbols_in(region_cells@[q], flags@) == 1,
        decreases m - i,
    {
        if count_symbols(&region_cells[i], flags.as_slice()) != 1 {
            return None;
        }
        i = i + 1;
    }
    proof {
        let present = Seq::new(region_of@.len(), |i: int| puzzle.cell(i / w as int, i % w as int).symbol is Some);
        assert(present == flags@);
        assert(regions_agree(region_of@, region_cells@, h * w));
    }
    Some(region_of)
}


/// The number of cells assigned to region `rid`.
pub open spec fn region_count(region_of: Seq<Option<usize>>, rid: usize) -> nat {
    marked(member_flags(region_of, rid)).len()
}

/// The several-symbol growth state: `masks[rid]` records exactly the symbol
/// types among the cells of region `rid`, each present at most once, and
/// `sizes[rid]` counts its cells.
pub open spec fn multi_ok(
    region_of: Seq<Option<usize>>,
    masks: Seq<u64>,
    sizes: Seq<usize>,
    sym: Map<usize, usize>,
    n: int,
) -> bool {
    &&& region_of.len() == n && n <= usize::MAX
    &&& masks.len() == sizes.len() && masks.len() <= usize::MAX
    &&& forall|k: usize| #[trigger] sym.contains_key(k) ==> sym[k] < 64
    &&& forall|x: int| 0 <= x < n && (#[trigger] region_of[x]) is Some ==> region_of[x].unwrap() < masks.len()
    &&& forall|rid: int, t: u64|
        0 <= rid < masks.len() && t < 64 ==> (#[trigger] mask_bit(masks[rid], t) <==> exists|x: int|
            0 <= x < n && region_of[x] == Some(rid as usize) && #[trigger] sym_of(sym, x) == Some(t as usize))
    &&& forall|a: int, b: int|
        0 <= a < n && 0 <= b < n && a != b && (#[trigger] region_of[a]) is Some && region_of[a] == #[trigger] region_of[b]
            && sym_of(sym, a) is Some ==> sym_of(sym, a) != sym_of(sym, b)
    &&& forall|rid: int| 0 <= rid < sizes.len() ==> #[trigger] sizes[rid] == region_count(region_of, rid as usize)
}

proof fn lemma_count_change(ro: Seq<Option<usize>>, x: int, v: Option<usize>, rid: usize)
    requires
        0 <= x < ro.len() <= usize::MAX,
    ensures
        region_count(ro.update(x, v), rid) == region_count(ro, rid) + (if v == Some(rid) {
            1int
        } else {
            0int
        }) - (if ro[x] == Some(rid) {
            1int
        } else {
            0int
        }),
        region_count(ro, rid) <= ro.len(),
{
    let f0 = member_flags(ro, rid);
    let f1 = member_flags(ro.update(x, v), rid);
    lemma_marked_bound(f0);
    lemma_marked_bound(f1);
    let xs = x as usize;
    if ro[x] == Some(rid) && v != Some(rid) {
        assert(marked(f1) =~= marked(f0).remove(xs));
    } else if ro[x] != Some(rid) && v == Some(rid) {
        assert(marked(f1) =~= marked(f0).insert(xs));
    } else {
        assert(marked(f1) =~= marked(f0));
    }
}

/// Assigning the unassigned cell `x` to region `rid`, which lacks `x`'s
/// symbol type, keeps the state consistent.
proof fn lemma_multi_assign(
    ro: Seq<Option<usize>>,
    masks: Seq<u64>,
    sizes: Seq<usize>,
    sym: Map<usize, usize>,
    n: int,
    x: int,
    rid: usize,
)
    requires
        multi_ok(ro, masks, sizes, sym, n),
        0 <= x < n,
        ro[x] is None,
        rid < masks.len(),
        sym_of(sym, x) is Some ==> !mask_bit(masks[rid as int], sym_of(sym, x).unwrap() as u64),
    ensures
        sizes[rid as int] < usize::MAX,
        multi_ok(
            ro.update(x, Some(rid)),
            match sym_of(sym, x) {
                Some(t) => masks.update(rid as int, masks[rid as int] | (1u64 << (t as u64))),
                None => masks,
            },
            sizes.update(rid as int, (sizes[rid as int] + 1) as usize),
            sym,
            n,
        ),
{
    let ro1 = ro.update(x, Some(rid));
    let masks1 = match sym_of(sym, x) {
        Some(t) => masks.update(rid as int, masks[rid as int] | (1u64 << (t as u64))),
        None => masks,
    };
    let sizes1 = sizes.update(rid as int, (sizes[rid as int] + 1) as usize);
    lemma_count_change(ro, x, Some(rid), rid);
    lemma_marked_bound(member_flags(ro, rid));
    assert(region_count(ro, rid) < n) by {
        assert(!marked(member_flags(ro, rid)).contains(x as usize));
        let all = Seq::new(n as nat, |i: int| i as usize).to_set();
        assert(marked(member_flags(ro, rid)).subset_of(all.remove(x as usize))) by {
            assert forall|i: usize| marked(member_flags(ro, rid)).contains(i) implies all.remove(x as usize).contains(i) by {
                assert(Seq::new(n as nat, |i: int| i as usize)[i as int] == i);
            }
        }
        Seq::new(n as nat, |i: int| i as usize).lemma_cardinality_of_set();
        assert(all.contains(x as usize)) by {
            assert(Seq::new(n as nat, |i: int| i as usize)[x] == x as usize);
        }
        vstd::set_lib::lemma_len_subset(marked(member_flags(ro, rid)), all.remove(x as usize));
    }
    assert forall|q: int| 0 <= q < sizes1.len() implies #[trigger] sizes1[q] == region_count(ro1, q as usize) by {
        lemma_count_change(ro, x, Some(rid), q as usize);
        if q != rid {
            assert(q as usize != rid);
        }
    }
    assert forall|q: int, t: u64| 0 <= q < masks1.len() && t < 64 implies (#[trigger] mask_bit(masks1[q], t) <==> exists|y: int|
        0 <= y < n && ro1[y] == Some(q as usize) && #[trigger] sym_of(sym, y) == Some(t as usize)) by {
        if exists|y: int| 0 <= y < n && ro[y] == Some(q as usize) && #[trigger] sym_of(sym, y) == Some(t as usize) {
            let y = choose|y: int| 0 <= y < n && ro[y] == Some(q as usize) && #[trigger] sym_of(sym, y) == Some(t as usize);
            assert(ro1[y] == Some(q as usize));
        }
        if exists|y: int| 0 <= y < n && ro1[y] == Some(q as usize) && #[trigger] sym_of(sym, y) == Some(t as usize) {
            let y = choose|y: int| 0 <= y < n && ro1[y] == Some(q as usize) && #[trigger] sym_of(sym, y) == Some(t as usize);
            if y != x {
                assert(ro[y] == Some(q as usize));
            }
        }
        match sym_of(sym, x) {
            Some(tx) => {
                assert(sym.contains_key(x as usize));
                crate::rose::region_match::lemma_mask_or(masks[rid as int], tx as u64, t);
                if q == rid {
                    assert(q as usize == rid);
                } else {
                    assert(q as usize != rid);
                }
            },
            None => {
                if q as usize == rid {
                }
            },
        }
    }
    assert forall|a: int, b: int|
        0 <= a < n && 0 <= b < n && a != b && (#[trigger] ro1[a]) is Some && ro1[a] == #[trigger] ro1[b]
            && sym_of(sym, a) is Some implies sym_of(sym, a) != sym_of(sym, b) by {
        if a == x {
            assert(ro[b] == Some(rid));
            if sym_of(sym, a) == sym_of(sym, b) {
                assert(mask_bit(masks[rid as int], sym_of(sym, x).unwrap() as u64)) by {
                    assert(sym.contains_key(x as usize));
                }
            }
        } else if b == x {
            assert(ro[a] == Some(rid));
            if sym_of(sym, a) == sym_of(sym, b) {
                assert(sym.contains_key(a as usize));
                assert(mask_bit(masks[rid as int], sym_of(sym, a).unwrap() as u64));
            }
        } else {
            assert(ro[a] == ro1[a] && ro[b] == ro1[b]);
        }
    }
    assert forall|y: int| 0 <= y < n && (#[trigger] ro1[y]) is Some implies ro1[y].unwrap() < masks1.len() by {
        if y != x {
            assert(ro[y] == ro1[y]);
        }
    }
}


/// Two words with the same 64 bits are equal.
proof fn lemma_same_bits(a: u64, b: u64)
    requires
        forall|t: u64| t < 64 ==> (#[trigger] mask_bit(a, t) <==> mask_bit(b, t)),
    ensures
        a == b,
{
    let x = a ^ b;
    assert forall|k: int| 0 <= k < 64 implies !#[trigger] crate::rose::cells::word_bit(x, k) by {
        let t = k as u64;
        assert(mask_bit(a, t) <==> mask_bit(b, t));
        assert((((a ^ b) >> t) & 1 == 1) <==> (((a >> t) & 1 == 1) != ((b >> t) & 1 == 1))) by (bit_vector)
            requires
                t < 64,
        ;
    }
    crate::rose::cells::lemma_word_zero(x);
    assert(a ^ b == 0u64 ==> a == b) by (bit_vector);
}

/// The masks and sizes of a consistent state are determined by the
/// assignment.
proof fn lemma_multi_determined(
    ro: Seq<Option<usize>>,
    m1: Seq<u64>,
    s1: Seq<usize>,
    m2: Seq<u64>,
    s2: Seq<usize>,
    sym: Map<usize, usize>,
    n: int,
)
    requires
        multi_ok(ro, m1, s1, sym, n),
        multi_ok(ro, m2, s2, sym, n),
        m1.len() == m2.len(),
    ensures
        m1 == m2,
        s1 == s2,
{
    assert forall|q: int| 0 <= q < m1.len() implies m1[q] == m2[q] by {
        assert forall|t: u64| t < 64 implies (#[trigger] mask_bit(m1[q], t) <==> mask_bit(m2[q], t)) by {
            assert(mask_bit(m1[q], t) <==> exists|x: int| 0 <= x < n && ro[x] == Some(q as usize) && #[trigger] sym_of(sym, x) == Some(t as usize));
            assert(mask_bit(m2[q], t) <==> exists|x: int| 0 <= x < n && ro[x] == Some(q as usize) && #[trigger] sym_of(sym, x) == Some(t as usize));
        }
        lemma_same_bits(m1[q], m2[q]);
    }
    assert(m1 =~= m2);
    assert forall|q: int| 0 <= q < s1.len() implies s1[q] == s2[q] by {
        assert(s1[q] == region_count(ro, q as usize));
        assert(s2[q] == region_count(ro, q as usize));
    }
    assert(s1 =~= s2);
}

/// The masks after moving a cell of type `t` (if any) from `cur` to `nrid`.
pub open spec fn moved_masks(masks: Seq<u64>, t: Option<usize>, cur: usize, nrid: usize) -> Seq<u64> {
    match t {
        Some(t) => masks.update(cur as int, masks[cur as int] & !(1u64 << (t as u64))).update(
            nrid as int,
            masks[nrid as int] | (1u64 << (t as u64)),
        ),
        None => masks,
    }
}

/// Moving cell `x` from region `cur` to region `nrid`, which lacks `x`'s
/// symbol type, keeps the state consistent.
proof fn lemma_multi_move(
    ro: Seq<Option<usize>>,
    masks: Seq<u64>,
    sizes: Seq<usize>,
    sym: Map<usize, usize>,
    n: int,
    x: int,
    cur: usize,
    nrid: usize,
)
    requires
        multi_ok(ro, masks, sizes, sym, n),
        0 <= x < n,
        ro[x] == Some(cur),
        nrid < masks.len(),
        nrid != cur,
        sym_of(sym, x) is Some ==> !mask_bit(masks[nrid as int], sym_of(sym, x).unwrap() as u64),
    ensures
        sizes[cur as int] >= 1,
        sizes[nrid as int] < usize::MAX,
        multi_ok(
            ro.update(x, Some(nrid)),
            moved_masks(masks, sym_of(sym, x), cur, nrid),
            sizes.update(cur as int, (sizes[cur as int] - 1) as usize).update(nrid as int, (sizes[nrid as int] + 1) as usize),
            sym,
            n,
        ),
{
    let ro1 = ro.update(x, Some(nrid));
    let masks1 = moved_masks(masks, sym_of(sym, x), cur, nrid);
    let sizes1 = sizes.update(cur as int, (sizes[cur as int] - 1) as usize).update(nrid as int, (sizes[nrid as int] + 1) as usize);
    lemma_count_change(ro, x, Some(nrid), nrid);
    lemma_count_change(ro, x, Some(nrid), cur);
    lemma_marked_bound(member_flags(ro, cur));
    assert(marked(member_flags(ro, cur)).contains(x as usize));
    assert(region_count(ro, nrid) < n) by {
        let all = Seq::new(n as nat, |i: int| i as usize).to_set();
        assert(marked(member_flags(ro, nrid)).subset_of(all.remove(x as usize))) by {
            assert forall|i: usize| marked(member_flags(ro, nrid)).contains(i) implies all.remove(x as usize).contains(i) by {
                assert(Seq::new(n as nat, |i: int| i as usize)[i as int] == i);
            }
        }
        Seq::new(n as nat, |i: int| i as usize).lemma_cardinality_of_set();
        assert(all.contains(x as usize)) by {
            assert(Seq::new(n as nat, |i: int| i as usize)[x] == x as usize);
        }
        vstd::set_lib::lemma_len_subset(marked(member_flags(ro, nrid)), all.remove(x as usize));
    }
    assert forall|q: int| 0 <= q < sizes1.len() implies #[trigger] sizes1[q] == region_count(ro1, q as usize) by {
        lemma_count_change(ro, x, Some(nrid), q as usize);
        if q != nrid && q != cur {
            assert(q as usize != nrid && q as usize != cur);
        }
    }
    assert forall|q: int, t: u64| 0 <= q < masks1.len() && t < 64 implies (#[trigger] mask_bit(masks1[q], t) <==> exists|y: int|
        0 <= y < n && ro1[y] == Some(q as usize) && #[trigger] sym_of(sym, y) == Some(t as usize)) by {
        let before = exists|y: int| 0 <= y < n && ro[y] == Some(q as usize) && #[trigger] sym_of(sym, y) == Some(t as usize);
        let after = exists|y: int| 0 <= y < n && ro1[y] == Some(q as usize) && #[trigger] sym_of(sym, y) == Some(t as usize);
        assert(mask_bit(masks[q], t) == before);
        match sym_of(sym, x) {
            Some(tx) => {
                assert(sym.contains_key(x as usize));
                crate::rose::region_match::lemma_mask_or(masks[nrid as int], tx as u64, t);
                crate::rose::cells::lemma_bit_clear_one(masks[cur as int], tx as u64, t);
                if q as usize == cur {
                    if t == tx as u64 {
                        if after {
                            let y = choose|y: int| 0 <= y < n && ro1[y] == Some(q as usize) && #[trigger] sym_of(sym, y) == Some(t as usize);
                            assert(y != x);
                            assert(ro[y] == Some(cur));
                        }
                    } else {
                        if before {
                            let y = choose|y: int| 0 <= y < n && ro[y] == Some(q as usize) && #[trigger] sym_of(sym, y) == Some(t as usize);
                            assert(y != x);
                            assert(ro1[y] == Some(q as usize));
                        }
                        if after {
                            let y = choose|y: int| 0 <= y < n && ro1[y] == Some(q as usize) && #[trigger] sym_of(sym, y) == Some(t as usize);
                            assert(ro[y] == Some(q as usize));
                        }
                    }
                } else if q as usize == nrid {
                    if before {
                        let y = choose|y: int| 0 <= y < n && ro[y] == Some(q as usize) && #[trigger] sym_of(sym, y) == Some(t as usize);
                        assert(ro1[y] == Some(q as usize));
                    }
                    if after {
                        let y = choose|y: int| 0 <= y < n && ro1[y] == Some(q as usize) && #[trigger] sym_of(sym, y) == Some(t as usize);
                        if y != x {
                            assert(ro[y] == Some(q as usize));
                        }
                    }
                    if t == tx as u64 {
                        assert(ro1[x] == Some(q as usize) && sym_of(sym, x) == Some(t as usize));
                    }
                } else {
                    assert(masks1[q] == masks[q]);
                    if before {
                        let y = choose|y: int| 0 <= y < n && ro[y] == Some(q as usize) && #[trigger] sym_of(sym, y) == Some(t as usize);
                        assert(ro1[y] == Some(q as usize));
                    }
                    if after {
                        let y = choose|y: int| 0 <= y < n && ro1[y] == Some(q as usize) && #[trigger] sym_of(sym, y) == Some(t as usize);
                        assert(ro[y] == Some(q as usize));
                    }
                }
            },
            None => {
                if before {
                    let y = choose|y: int| 0 <= y < n && ro[y] == Some(q as usize) && #[trigger] sym_of(sym, y) == Some(t as usize);
                    assert(y != x);
                    assert(ro1[y] == Some(q as usize));
                }
                if after {
                    let y = choose|y: int| 0 <= y < n && ro1[y] == Some(q as usize) && #[trigger] sym_of(sym, y) == Some(t as usize);
                    assert(y != x);
                    assert(ro[y] == Some(q as usize));
                }
            },
        }
    }
    assert forall|a: int, b: int|
        0 <= a < n && 0 <= b < n && a != b && (#[trigger] ro1[a]) is Some && ro1[a] == #[trigger] ro1[b]
            && sym_of(sym, a) is Some implies sym_of(sym, a) != sym_of(sym, b) by {
        if a == x {
            assert(ro[b] == Some(nrid));
            if sym_of(sym, a) == sym_of(sym, b) {
                assert(sym.contains_key(x as usize));
                assert(mask_bit(masks[nrid as int], sym_of(sym, x).unwrap() as u64));
            }
        } else if b == x {
            assert(ro[a] == Some(nrid));
            if sym_of(sym, a) == sym_of(sym, b) {
                assert(sym.contains_key(a as usize));
                assert(mask_bit(masks[nrid as int], sym_of(sym, a).unwrap() as u64));
            }
        } else {
            assert(ro[a] == ro1[a] && ro[b] == ro1[b]);
        }
    }
    assert forall|y: int| 0 <= y < n && (#[trigger] ro1[y]) is Some implies ro1[y].unwrap() < masks1.len() by {
        if y != x {
            assert(ro[y] == ro1[y]);
        }
    }
}


/// The neighbour `(r + dr, c + dc)` of a board cell, when on the board.
pub open spec fn stepped(r: int, c: int, dr: int, dc: int, h: int, w: int) -> Option<(int, int)> {
    if 0 <= r + dr < h && 0 <= c + dc < w {
        Some((r + dr, c + dc))
    } else {
        None
    }
}

/// Region `rid` may grow from `(r, c)` one step `(dr, dc)`: the neighbour is
/// on the board, not blocked and unassigned, no boundary runs between, the
/// region lacks its symbol type, and, if it ends a boundary, it does not
/// face a cell of `rid` behind one.
pub open spec fn can_grow(
    p: Puzzle,
    ro: Seq<Option<usize>>,
    masks: Seq<u64>,
    pre: PreBoundaries,
    sym: Map<usize, usize>,
    ends: CellSet,
    r: int,
    c: int,
    rid: usize,
    dr: int,
    dc: int,
) -> bool {
    let h = p.height as int;
    let w = p.width as int;
    match stepped(r, c, dr, dc, h, w) {
        None => false,
        Some((nr, nc)) => {
            let x = nr * w + nc;
            &&& !p.cell(nr, nc).blocked
            &&& ro[x] is None
            &&& !pre@.contains(spec_edge_key(r as usize, c as usize, nr as usize, nc as usize))
            &&& (sym_of(sym, x) is Some ==> !mask_bit(masks[rid as int], sym_of(sym, x).unwrap() as u64))
            &&& !(ends.has(x) && walled_in(ro, pre, rid, nr, nc, -1, h, w))
        },
    }
}

/// Region `rid` can grow from the flat cell `x` in none of the four
/// directions (see `can_grow`).
pub open spec fn grow_stuck(
    p: Puzzle,
    ro: Seq<Option<usize>>,
    masks: Seq<u64>,
    pre: PreBoundaries,
    sym: Map<usize, usize>,
    ends: CellSet,
    x: int,
    rid: usize,
) -> bool {
    let w = p.width as int;
    &&& !can_grow(p, ro, masks, pre, sym, ends, x / w, x % w, rid, -1, 0)
    &&& !can_grow(p, ro, masks, pre, sym, ends, x / w, x % w, rid, 1, 0)
    &&& !can_grow(p, ro, masks, pre, sym, ends, x / w, x % w, rid, 0, -1)
    &&& !can_grow(p, ro, masks, pre, sym, ends, x / w, x % w, rid, 0, 1)
}

/// The cell `x` was unassigned in `ro0`, or is the seed of region `rid`.
pub open spec fn grown_from(ro0: Seq<Option<usize>>, seeds: Seq<usize>, x: int, rid: usize) -> bool {
    ro0[x] is None || (rid < seeds.len() && seeds[rid as int] == x)
}

/// A step that cannot grow a region stays so once more cells are assigned
/// (with the symbol masks kept consistent).
proof fn lemma_can_grow_later(
    p: Puzzle,
    ro1: Seq<Option<usize>>,
    m1: Seq<u64>,
    s1: Seq<usize>,
    ro2: Seq<Option<usize>>,
    m2: Seq<u64>,
    s2: Seq<usize>,
    pre: PreBoundaries,
    sym: Map<usize, usize>,
    ends: CellSet,
    r: int,
    c: int,
    rid: usize,
    dr: int,
    dc: int,
)
    requires
        multi_ok(ro1, m1, s1, sym, p.height * p.width),
        multi_ok(ro2, m2, s2, sym, p.height * p.width),
        m1.len() == m2.len(),
        rid < m1.len(),
        forall|i: int| 0 <= i < ro1.len() && (#[trigger] ro1[i]) is Some ==> ro2[i] == ro1[i],
        !can_grow(p, ro1, m1, pre, sym, ends, r, c, rid, dr, dc),
    ensures
        !can_grow(p, ro2, m2, pre, sym, ends, r, c, rid, dr, dc),
{
    let h = p.height as int;
    let w = p.width as int;
    match stepped(r, c, dr, dc, h, w) {
        None => {},
        Some((nr, nc)) => {
            if can_grow(p, ro2, m2, pre, sym, ends, r, c, rid, dr, dc) {
                crate::edge_csp::grid::lemma_cell_id_bound(h, w, nr, nc);
                let x = nr * w + nc;
                if ro1[x] is Some {
                    assert(ro2[x] == ro1[x]);
                }
                if sym_of(sym, x) is Some {
                    let t = sym_of(sym, x).unwrap();
                    assert(sym.contains_key(x as usize));
                    assert(t < 64);
                    if mask_bit(m1[rid as int], t as u64) {
                        let y = choose|y: int|
                            0 <= y < h * w && ro1[y] == Some(rid) && #[trigger] sym_of(sym, y) == Some((t as u64) as usize);
                        assert(ro2[y] == Some(rid));
                        assert(mask_bit(m2[rid as int], t as u64));
                    }
                }
                if ends.has(x) && walled_in(ro1, pre, rid, nr, nc, -1, h, w) {
                    let (ar, ac) = choose|ar: int, ac: int|
                        #[trigger] side_neighbour(h, w, nr, nc, ar, ac) && ar * w + ac != -1 && ro1[ar * w + ac] == Some(rid)
                            && pre@.contains(spec_edge_key(nr as usize, nc as usize, ar as usize, ac as usize));
                    crate::edge_csp::grid::lemma_cell_id_bound(h, w, ar, ac);
                    assert(ro2[ar * w + ac] == Some(rid));
                    assert(walled_in(ro2, pre, rid, nr, nc, -1, h, w));
                }
                assert(can_grow(p, ro1, m1, pre, sym, ends, r, c, rid, dr, dc));
            }
        },
    }
}

/// `grow_stuck` stays true once more cells are assigned.
proof fn lemma_stuck_later(
    p: Puzzle,
    ro1: Seq<Option<usize>>,
    m1: Seq<u64>,
    s1: Seq<usize>,
    ro2: Seq<Option<usize>>,
    m2: Seq<u64>,
    s2: Seq<usize>,
    pre: PreBoundaries,
    sym: Map<usize, usize>,
    ends: CellSet,
    x: int,
    rid: usize,
)
    requires
        multi_ok(ro1, m1, s1, sym, p.height * p.width),
        multi_ok(ro2, m2, s2, sym, p.height * p.width),
        m1.len() == m2.len(),
        rid < m1.len(),
        forall|i: int| 0 <= i < ro1.len() && (#[trigger] ro1[i]) is Some ==> ro2[i] == ro1[i],
        grow_stuck(p, ro1, m1, pre, sym, ends, x, rid),
    ensures
        grow_stuck(p, ro2, m2, pre, sym, ends, x, rid),
{
    let w = p.width as int;
    lemma_can_grow_later(p, ro1, m1, s1, ro2, m2, s2, pre, sym, ends, x / w, x % w, rid, -1, 0);
    lemma_can_grow_later(p, ro1, m1, s1, ro2, m2, s2, pre, sym, ends, x / w, x % w, rid, 1, 0);
    lemma_can_grow_later(p, ro1, m1, s1, ro2, m2, s2, pre, sym, ends, x / w, x % w, rid, 0, -1);
    lemma_can_grow_later(p, ro1, m1, s1, ro2, m2, s2, pre, sym, ends, x / w, x % w, rid, 0, 1);
}

/// Grows region `rid` from `(r, c)` by the step `(dr, dc)` when it may (see
/// `can_grow`), queueing the new cell; the result is whether it grew.
pub fn process_growth_neighbor(
    region_of: &mut Vec<Option<usize>>,
    region_symbols: &mut Vec<u64>,
    region_sizes: &mut Vec<usize>,
    queue: &mut VecDeque<(usize, usize)>,
    r: usize,
    c: usize,
    rid: usize,
    dr: i32,
    dc: i32,
    pre: &PreBoundaries,
    puzzle: &Puzzle,
    symbol_of: &HashMap<usize, usize>,
    boundary_endpoints: &CellSet,
    h: usize,
    w: usize,
) -> (grew: bool)
    requires
        puzzle.wf(),
        h == puzzle.height,
        w == puzzle.width,
        multi_ok(old(region_of)@, old(region_symbols)@, old(region_sizes)@, symbol_of@, h * w),
        r < h,
        c < w,
        rid < old(region_symbols)@.len(),
        -1 <= dr <= 1,
        -1 <= dc <= 1,
        h * w <= boundary_endpoints.nbits(),
    ensures
        grew == can_grow(
            *puzzle,
            old(region_of)@,
            old(region_symbols)@,
            *pre,
            symbol_of@,
            *boundary_endpoints,
            r as int,
            c as int,
            rid,
            dr as int,
            dc as int,
        ),
        multi_ok(final(region_of)@, final(region_symbols)@, final(region_sizes)@, symbol_of@, h * w),
        final(region_symbols)@.len() == old(region_symbols)@.len(),
        grew ==> {
            let (nr, nc) = stepped(r as int, c as int, dr as int, dc as int, h as int, w as int).unwrap();
            &&& final(region_of)@ == old(region_of)@.update(nr * w + nc, Some(rid))
            &&& final(queue)@ == old(queue)@.push(((nr * w + nc) as usize, rid))
        },
        !grew ==> final(region_of)@ == old(region_of)@ && final(region_symbols)@ == old(region_symbols)@
            && final(region_sizes)@ == old(region_sizes)@ && final(queue)@ == old(queue)@,
{
    broadcast use vstd::std_specs::hash::group_hash_axioms;

    let nr: i128 = r as i128 + dr as i128;
    let nc: i128 = c as i128 + dc as i128;
    if nr < 0 || nc < 0 || nr >= h as i128 || nc >= w as i128 {
        return false;
    }
    let nru = nr as usize;
    let ncu = nc as usize;
    proof {
        crate::edge_csp::grid::lemma_cell_id_bound(h as int, w as int, nru as int, ncu as int);
    }
    let nidx = nru * w + ncu;
    if puzzle.cells[nru][ncu].blocked || region_of[nidx].is_some() {
        return false;
    }
    if pre.contains(r, c, nru, ncu) {
        return false;
    }
    let sym: Option<usize> = match symbol_of.get(&nidx) {
        Some(ti) => Some(*ti),
        None => None,
    };
    proof {
        assert(sym == sym_of(symbol_of@, nidx as int));
    }
    if let Some(si) = sym {
        proof {
            assert(symbol_of@.contains_key(nidx));
            crate::rose::region_match::lemma_mask_or(region_symbols@[rid as int], si as u64, si as u64);
        }
        if (region_symbols[rid] & (1u64 << si as u64)) != 0 {
            return false;
        }
    }
    if boundary_endpoints.contains(nidx) && boundary_in_same_region(region_of.as_slice(), pre, nru, ncu, rid, h, w) {
        return false;
    }
    let ghost ro0 = region_of@;
    let ghost m0 = region_symbols@;
    let ghost s0 = region_sizes@;
    proof {
        lemma_multi_assign(ro0, m0, s0, symbol_of@, h * w, nidx as int, rid);
    }
    region_of.set(nidx, Some(rid));
    if let Some(si) = sym {
        let v = region_symbols[rid] | (1u64 << si as u64);
        region_symbols.set(rid, v);
    }
    let sz = region_sizes[rid] + 1;
    region_sizes.set(rid, sz);
    queue.push_back((nidx, rid));
    true
}

/// The number of assigned cells.
pub open spec fn assigned_count(region_of: Seq<Option<usize>>) -> nat {
    marked(Seq::new(region_of.len(), |i: int| region_of[i] is Some)).len()
}

proof fn lemma_assigned_grows(ro: Seq<Option<usize>>, x: int, v: usize)
    requires
        0 <= x < ro.len() <= usize::MAX,
        ro[x] is None,
    ensures
        assigned_count(ro.update(x, Some(v))) == assigned_count(ro) + 1,
        assigned_count(ro.update(x, Some(v))) <= ro.len(),
{
    let f0 = Seq::new(ro.len(), |i: int| ro[i] is Some);
    let ro1 = ro.update(x, Some(v));
    let f1 = Seq::new(ro1.len(), |i: int| ro1[i] is Some);
    lemma_marked_bound(f0);
    lemma_marked_bound(f1);
    assert(marked(f1) =~= marked(f0).insert(x as usize));
}

/// Breadth-first growth of every region from its seed (region `i` from
/// `seeds[i]`) by `process_growth_neighbor`, until no queued cell can grow
/// its region further.  Cells already assigned keep their region.
pub fn grow_initial_regions(
    region_of: &mut Vec<Option<usize>>,
    region_symbols: &mut Vec<u64>,
    region_sizes: &mut Vec<usize>,
    pre: &PreBoundaries,
    puzzle: &Puzzle,
    seeds: &Vec<usize>,
    symbol_of: &HashMap<usize, usize>,
    boundary_endpoints: &CellSet,
    h: usize,
    w: usize,
)
    requires
        puzzle.wf(),
        h == puzzle.height,
        w == puzzle.width,
        multi_ok(old(region_of)@, old(region_symbols)@, old(region_sizes)@, symbol_of@, h * w),
        seeds@.len() <= old(region_symbols)@.len(),
        forall|i: int| 0 <= i < seeds@.len() ==> (#[trigger] seeds@[i]) < h * w,
        h * w <= boundary_endpoints.nbits(),
    ensures
        multi_ok(final(region_of)@, final(region_symbols)@, final(region_sizes)@, symbol_of@, h * w),
        final(region_symbols)@.len() == old(region_symbols)@.len(),
        forall|i: int|
            0 <= i < h * w && (#[trigger] old(region_of)@[i]) is Some ==> final(region_of)@[i] == old(region_of)@[i],
        forall|x: int, rid: usize|
            0 <= x < h * w && final(region_of)@[x] == Some(rid) && #[trigger] grown_from(old(region_of)@, seeds@, x, rid)
                ==> grow_stuck(
                *puzzle,
                final(region_of)@,
                final(region_symbols)@,
                *pre,
                symbol_of@,
                *boundary_endpoints,
                x,
                rid,
            ),
{
    let n = h * w;
    let m = region_symbols.len();
    let mut queue: VecDeque<(usize, usize)> = VecDeque::new();
    let mut i: usize = 0;
    while i < seeds.len()
        invariant
            i <= seeds@.len(),
            seeds@.len() <= m,
            forall|q: int| 0 <= q < seeds@.len() ==> (#[trigger] seeds@[q]) < n,
            queue@.len() == i,
            forall|q: int| 0 <= q < queue@.len() ==> (#[trigger] queue@[q]).0 < n && queue@[q].1 < m,
            forall|q: int| 0 <= q < i ==> #[trigger] queue@[q] == (seeds@[q], q as usize),
        decreases seeds@.len() - i,
    {
        queue.push_back((seeds[i], i));
        i = i + 1;
    }
    proof {
        lemma_marked_bound(Seq::new(region_of@.len(), |i: int| region_of@[i] is Some));
        assert forall|x: int, rid2: usize|
            0 <= x < n && region_of@[x] == Some(rid2) && #[trigger] grown_from(old(region_of)@, seeds@, x, rid2) implies queue@.contains(
            (x as usize, rid2),
        ) by {
            assert(queue@[rid2 as int] == (x as usize, rid2));
        }
    }
    loop
        invariant
            forall|x: int, rid2: usize|
                0 <= x < n && region_of@[x] == Some(rid2) && #[trigger] grown_from(old(region_of)@, seeds@, x, rid2)
                    ==> queue@.contains((x as usize, rid2)) || grow_stuck(
                    *puzzle,
                    region_of@,
                    region_symbols@,
                    *pre,
                    symbol_of@,
                    *boundary_endpoints,
                    x,
                    rid2,
                ),
            puzzle.wf(),
            h == puzzle.height,
            w == puzzle.width,
            n == h * w,
            m == region_symbols@.len(),
            h * w <= boundary_endpoints.nbits(),
            multi_ok(region_of@, region_symbols@, region_sizes@, symbol_of@, h * w),
            forall|q: int| 0 <= q < queue@.len() ==> (#[trigger] queue@[q]).0 < n && queue@[q].1 < m,
            forall|i: int|
                0 <= i < h * w && (#[trigger] old(region_of)@[i]) is Some ==> region_of@[i] == old(region_of)@[i],
            assigned_count(region_of@) <= n,
        ensures
            queue@.len() == 0,
            forall|x: int, rid2: usize|
                0 <= x < n && region_of@[x] == Some(rid2) && #[trigger] grown_from(old(region_of)@, seeds@, x, rid2)
                    ==> queue@.contains((x as usize, rid2)) || grow_stuck(
                    *puzzle,
                    region_of@,
                    region_symbols@,
                    *pre,
                    symbol_of@,
                    *boundary_endpoints,
                    x,
                    rid2,
                ),
        decreases 2 * (n - assigned_count(region_of@)) + queue@.len(),
    {
        let ghost qb = queue@;
        let (idx, rid) = match queue.pop_front() {
            None => {
                break;
            },
            Some(e) => e,
        };
        proof {
            crate::edge_csp::grid::lemma_pos_bounds(h as int, w as int, idx as int);
        }
        let ghost m0: int = 2 * (n - assigned_count(region_of@)) + queue@.len();
        let r = idx / w;
        let c = idx % w;
        proof {
            assert forall|x: int, rid2: usize|
                0 <= x < n && region_of@[x] == Some(rid2) && #[trigger] grown_from(old(region_of)@, seeds@, x, rid2) implies queue@.contains(
                (x as usize, rid2),
            ) || grow_stuck(*puzzle, region_of@, region_symbols@, *pre, symbol_of@, *boundary_endpoints, x, rid2) || (x
                == idx && rid2 == rid) by {
                if qb.contains((x as usize, rid2)) {
                    let j = choose|j: int| 0 <= j < qb.len() && qb[j] == (x as usize, rid2);
                    if j > 0 {
                        assert(queue@[j - 1] == qb[j]);
                    }
                }
            }
        }
        let mut d: usize = 0;
        while d < 4
            invariant
                forall|x: int, rid2: usize|
                    0 <= x < n && region_of@[x] == Some(rid2) && #[trigger] grown_from(old(region_of)@, seeds@, x, rid2)
                        ==> queue@.contains((x as usize, rid2)) || grow_stuck(
                        *puzzle,
                        region_of@,
                        region_symbols@,
                        *pre,
                        symbol_of@,
                        *boundary_endpoints,
                        x,
                        rid2,
                    ) || (x == idx && rid2 == rid),
                idx < n,
                r == idx / w,
                c == idx % w,
                d > 0 ==> !can_grow(*puzzle, region_of@, region_symbols@, *pre, symbol_of@, *boundary_endpoints, r as int, c as int, rid, -1, 0),
                d > 1 ==> !can_grow(*puzzle, region_of@, region_symbols@, *pre, symbol_of@, *boundary_endpoints, r as int, c as int, rid, 1, 0),
                d > 2 ==> !can_grow(*puzzle, region_of@, region_symbols@, *pre, symbol_of@, *boundary_endpoints, r as int, c as int, rid, 0, -1),
                d > 3 ==> !can_grow(*puzzle, region_of@, region_symbols@, *pre, symbol_of@, *boundary_endpoints, r as int, c as int, rid, 0, 1),
                puzzle.wf(),
                h == puzzle.height,
                w == puzzle.width,
                n == h * w,
                m == region_symbols@.len(),
                r < h,
                c < w,
                rid < m,
                d <= 4,
                h * w <= boundary_endpoints.nbits(),
                multi_ok(region_of@, region_symbols@, region_sizes@, symbol_of@, h * w),
                forall|q: int| 0 <= q < queue@.len() ==> (#[trigger] queue@[q]).0 < n && queue@[q].1 < m,
                forall|i: int|
                    0 <= i < h * w && (#[trigger] old(region_of)@[i]) is Some ==> region_of@[i] == old(region_of)@[i],
                assigned_count(region_of@) <= n,
                2 * (n - assigned_count(region_of@)) + queue@.len() <= m0,
            decreases 4 - d,
        {
            let (dr, dc): (i32, i32) = if d == 0 {
                (-1, 0)
            } else if d == 1 {
                (1, 0)
            } else if d == 2 {
                (0, -1)
            } else {
                (0, 1)
            };
            let ghost ro0 = region_of@;
            let ghost q0 = queue@;
            let ghost ms0 = region_symbols@;
            let ghost sz0 = region_sizes@;
            let grew = process_growth_neighbor(
                region_of,
                region_symbols,
                region_sizes,
                &mut queue,
                r,
                c,
                rid,
                dr,
                dc,
                pre,
                puzzle,
                symbol_of,
                boundary_endpoints,
                h,
                w,
            );
            proof {
                if grew {
                    let (nr, nc) = stepped(r as int, c as int, dr as int, dc as int, h as int, w as int).unwrap();
                    crate::edge_csp::grid::lemma_cell_id_bound(h as int, w as int, nr, nc);
                    lemma_assigned_grows(ro0, nr * w + nc, rid);
                    assert forall|q: int| 0 <= q < queue@.len() implies (#[trigger] queue@[q]).0 < n && queue@[q].1 < m by {
                        if q < q0.len() {
                            assert(queue@[q] == q0[q]);
                        }
                    }
                    assert forall|i: int| 0 <= i < h * w && (#[trigger] old(region_of)@[i]) is Some implies region_of@[i] == old(region_of)@[i] by {
                        if i == nr * w + nc {
                            assert(ro0[i] is None);
                        }
                    }
                }
                let xn: int = if grew {
                    let (nr, nc) = stepped(r as int, c as int, dr as int, dc as int, h as int, w as int).unwrap();
                    nr * w + nc
                } else {
                    -1
                };
                assert(forall|i: int| 0 <= i < ro0.len() && (#[trigger] ro0[i]) is Some ==> region_of@[i] == ro0[i]);
                assert forall|x: int, rid2: usize|
                    0 <= x < n && region_of@[x] == Some(rid2) && #[trigger] grown_from(old(region_of)@, seeds@, x, rid2) implies queue@.contains(
                    (x as usize, rid2),
                ) || grow_stuck(*puzzle, region_of@, region_symbols@, *pre, symbol_of@, *boundary_endpoints, x, rid2) || (x
                    == idx && rid2 == rid) by {
                    if grew && x == xn {
                        assert(queue@[q0.len() as int] == (x as usize, rid2));
                    } else {
                        assert(ro0[x] == Some(rid2));
                        if q0.contains((x as usize, rid2)) {
                            let j = choose|j: int| 0 <= j < q0.len() && q0[j] == (x as usize, rid2);
                            assert(queue@[j] == q0[j]);
                        } else if grow_stuck(*puzzle, ro0, ms0, *pre, symbol_of@, *boundary_endpoints, x, rid2) {
                            lemma_stuck_later(*puzzle, ro0, ms0, sz0, region_of@, region_symbols@, region_sizes@, *pre, symbol_of@, *boundary_endpoints, x, rid2);
                        }
                    }
                }
                if d > 0 {
                    lemma_can_grow_later(*puzzle, ro0, ms0, sz0, region_of@, region_symbols@, region_sizes@, *pre, symbol_of@, *boundary_endpoints, r as int, c as int, rid, -1, 0);
                }
                if d > 1 {
                    lemma_can_grow_later(*puzzle, ro0, ms0, sz0, region_of@, region_symbols@, region_sizes@, *pre, symbol_of@, *boundary_endpoints, r as int, c as int, rid, 1, 0);
                }
                if d > 2 {
                    lemma_can_grow_later(*puzzle, ro0, ms0, sz0, region_of@, region_symbols@, region_sizes@, *pre, symbol_of@, *boundary_endpoints, r as int, c as int, rid, 0, -1);
                }
                if grew {
                    let (nr, nc) = stepped(r as int, c as int, dr as int, dc as int, h as int, w as int).unwrap();
                    assert(region_of@[nr * w + nc] is Some);
                    assert(!can_grow(*puzzle, region_of@, region_symbols@, *pre, symbol_of@, *boundary_endpoints, r as int, c as int, rid, dr as int, dc as int));
                }
            }
            d = d + 1;
        }
        proof {
            assert(grow_stuck(*puzzle, region_of@, region_symbols@, *pre, symbol_of@, *boundary_endpoints, idx as int, rid));
        }
    }
    proof {
        assert forall|x: int, rid2: usize|
            0 <= x < h * w && region_of@[x] == Some(rid2) && #[trigger] grown_from(old(region_of)@, seeds@, x, rid2) implies grow_stuck(
            *puzzle,
            region_of@,
            region_symbols@,
            *pre,
            symbol_of@,
            *boundary_endpoints,
            x,
            rid2,
        ) by {
            if queue@.contains((x as usize, rid2)) {
                let j = choose|j: int| 0 <= j < queue@.len() && queue@[j] == (x as usize, rid2);
            }
        }
    }
}


/// `rids` ordered by `sizes[rid]`, ties in their original order.
fn sort_by_count(rids: &Vec<usize>, sizes: &Vec<usize>) -> (out: Vec<usize>)
    requires
        forall|k: int| 0 <= k < rids@.len() ==> (#[trigger] rids@[k]) < sizes@.len(),
    ensures
        out@.to_multiset() == rids@.to_multiset(),
        forall|a: int, b: int|
            0 <= a < b < out@.len() ==> sizes@[(#[trigger] out@[a]) as int] <= sizes@[(#[trigger] out@[b]) as int],
{
    let mut out: Vec<usize> = Vec::new();
    let mut k: usize = 0;
    proof {
        assert(rids@.take(0) =~= Seq::<usize>::empty());
    }
    while k < rids.len()
        invariant
            forall|q: int| 0 <= q < rids@.len() ==> (#[trigger] rids@[q]) < sizes@.len(),
            k <= rids@.len(),
            out@.to_multiset() == rids@.take(k as int).to_multiset(),
            forall|q: int| 0 <= q < out@.len() ==> (#[trigger] out@[q]) < sizes@.len(),
            forall|a: int, b: int|
                0 <= a < b < out@.len() ==> sizes@[(#[trigger] out@[a]) as int] <= sizes@[(#[trigger] out@[b]) as int],
        decreases rids@.len() - k,
    {
        let rid = rids[k];
        let sz = sizes[rid];
        let mut j: usize = 0;
        while j < out.len() && sizes[out[j]] <= sz
            invariant
                j <= out@.len(),
                forall|q: int| 0 <= q < out@.len() ==> (#[trigger] out@[q]) < sizes@.len(),
                forall|q: int| 0 <= q < j ==> sizes@[(#[trigger] out@[q]) as int] <= sz,
            decreases out@.len() - j,
        {
            j = j + 1;
        }
        let ghost o0 = out@;
        proof {
            if j < o0.len() {
                assert(!(sizes@[o0[j as int] as int] <= sz));
            }
        }
        out.insert(j, rid);
        proof {
            vstd::seq_lib::to_multiset_insert(o0, j as int, rid);
            assert(rids@.take(k + 1) == rids@.take(k as int).push(rid));
            vstd::seq_lib::to_multiset_build(rids@.take(k as int), rid);
            assert forall|q: int| 0 <= q < out@.len() implies (#[trigger] out@[q]) < sizes@.len() by {
                if q < j {
                    assert(out@[q] == o0[q]);
                } else if q > j {
                    assert(out@[q] == o0[q - 1]);
                }
            }
            assert forall|a: int, b: int| 0 <= a < b < out@.len() implies sizes@[(#[trigger] out@[a]) as int] <= sizes@[(
            #[trigger] out@[b]) as int] by {
                if b < j {
                    assert(out@[a] == o0[a] && out@[b] == o0[b]);
                } else if a < j && b == j {
                    assert(out@[a] == o0[a]);
                } else if a < j && b > j {
                    assert(out@[a] == o0[a] && out@[b] == o0[b - 1]);
                } else if a == j {
                    assert(out@[b] == o0[b - 1]);
                    if b - 1 > j {
                        assert(sizes@[o0[j as int] as int] <= sizes@[o0[b - 1] as int]);
                    }
                } else {
                    assert(out@[a] == o0[a - 1] && out@[b] == o0[b - 1]);
                }
            }
        }
        k = k + 1;
    }
    proof {
        assert(rids@.take(k as int) == rids@);
    }
    out
}


/// Region `rid` can take the unassigned cell `idx`: it touches the cell with
/// no boundary between, lacks the cell's symbol type, and holds no
/// neighbour of the cell behind a boundary.
pub open spec fn can_take(
    ro: Seq<Option<usize>>,
    masks: Seq<u64>,
    sym: Map<usize, usize>,
    pre: PreBoundaries,
    idx: int,
    rid: usize,
    h: int,
    w: int,
) -> bool {
    &&& open_to(ro, pre, rid, idx / w, idx % w, h, w)
    &&& (sym_of(sym, idx) is Some ==> !mask_bit(masks[rid as int], sym_of(sym, idx).unwrap() as u64))
    &&& !walled_in(ro, pre, rid, idx / w, idx % w, -1, h, w)
}

/// Gives the unassigned cell `idx` to the smallest region that can take it
/// (see `can_take`); the result is whether one could.
pub fn assign_one_leftover(
    region_of: &mut Vec<Option<usize>>,
    region_symbols: &mut Vec<u64>,
    region_sizes: &mut Vec<usize>,
    idx: usize,
    symbol_of: &HashMap<usize, usize>,
    pre: &PreBoundaries,
    h: usize,
    w: usize,
) -> (assigned: bool)
    requires
        multi_ok(old(region_of)@, old(region_symbols)@, old(region_sizes)@, symbol_of@, h * w),
        idx < h * w,
        old(region_of)@[idx as int] is None,
    ensures
        multi_ok(final(region_of)@, final(region_symbols)@, final(region_sizes)@, symbol_of@, h * w),
        final(region_symbols)@.len() == old(region_symbols)@.len(),
        assigned == exists|rid: usize|
            #[trigger] can_take(old(region_of)@, old(region_symbols)@, symbol_of@, *pre, idx as int, rid, h as int, w as int),
        assigned ==> exists|rid: usize|
            #[trigger] can_take(old(region_of)@, old(region_symbols)@, symbol_of@, *pre, idx as int, rid, h as int, w as int)
                && final(region_of)@ == old(region_of)@.update(idx as int, Some(rid)),
        !assigned ==> final(region_of)@ == old(region_of)@ && final(region_symbols)@ == old(region_symbols)@
            && final(region_sizes)@ == old(region_sizes)@,
{
    broadcast use vstd::std_specs::hash::group_hash_axioms;

    proof {
        crate::edge_csp::grid::lemma_pos_bounds(h as int, w as int, idx as int);
        assert((h * w) as int / (w as int) == h as int) by (nonlinear_arith)
            requires
                w > 0,
        ;
    }
    let r = idx / w;
    let c = idx % w;
    let candidates = open_regions(region_of.as_slice(), pre, r, c, None, h, w);
    let ghost ro0 = region_of@;
    let ghost m0 = region_symbols@;
    proof {
        assert forall|k: int| 0 <= k < candidates@.len() implies (#[trigger] candidates@[k]) < region_symbols@.len() by {
            assert(candidates@.contains(candidates@[k]));
            let rid = candidates@[k];
            let (nr, nc) = choose|nr: int, nc: int| #[trigger] side_neighbour(h as int, w as int, r as int, c as int, nr, nc)
                && region_of@[nr * w + nc] == Some(rid) && !pre@.contains(spec_edge_key(r, c, nr as usize, nc as usize));
            crate::edge_csp::grid::lemma_cell_id_bound(h as int, w as int, nr, nc);
        }
    }
    if candidates.len() == 0 {
        proof {
            assert forall|rid: usize| !#[trigger] can_take(ro0, m0, symbol_of@, *pre, idx as int, rid, h as int, w as int) by {
                assert(!candidates@.contains(rid));
            }
        }
        return false;
    }
    let sym: Option<usize> = match symbol_of.get(&idx) {
        Some(ti) => Some(*ti),
        None => None,
    };
    proof {
        assert(sym == sym_of(symbol_of@, idx as int));
    }
    let mut valid: Vec<usize> = Vec::new();
    let mut k: usize = 0;
    while k < candidates.len()
        invariant
            multi_ok(region_of@, region_symbols@, region_sizes@, symbol_of@, h * w),
            region_of@ == ro0,
            region_symbols@ == m0,
            ro0 == old(region_of)@,
            m0 == old(region_symbols)@,
            ro0[idx as int] is None,
            sym == sym_of(symbol_of@, idx as int),
            k <= candidates@.len(),
            forall|q: int| 0 <= q < candidates@.len() ==> (#[trigger] candidates@[q]) < region_symbols@.len(),
            forall|q: int| 0 <= q < valid@.len() ==> (#[trigger] valid@[q]) < region_symbols@.len(),
            forall|rid: usize|
                #[trigger] valid@.contains(rid) <==> (exists|q: int| 0 <= q < k && candidates@[q] == rid) && (sym is Some
                    ==> !mask_bit(m0[rid as int], sym.unwrap() as u64)),
        decreases candidates@.len() - k,
    {
        let rid = candidates[k];
        let mut ok = true;
        if let Some(si) = sym {
            proof {
                assert(symbol_of@.contains_key(idx));
                crate::rose::region_match::lemma_mask_or(region_symbols@[rid as int], si as u64, si as u64);
            }
            if (region_symbols[rid] & (1u64 << si as u64)) != 0 {
                ok = false;
            }
        }
        let ghost v0 = valid@;
        if ok {
            valid.push(rid);
        }
        proof {
            assert forall|x: usize| #[trigger] valid@.contains(x) <==> (exists|q: int| 0 <= q < k + 1 && candidates@[q] == x) && (sym is Some
                ==> !mask_bit(m0[x as int], sym.unwrap() as u64)) by {
                if valid@.contains(x) {
                    let j = choose|j: int| 0 <= j < valid@.len() && valid@[j] == x;
                    if j < v0.len() {
                        assert(v0[j] == x);
                        assert(v0.contains(x));
                    }
                }
                if v0.contains(x) {
                    let j = choose|j: int| 0 <= j < v0.len() && v0[j] == x;
                    assert(valid@[j] == x);
                }
                if exists|q: int| 0 <= q < k + 1 && candidates@[q] == x {
                    let q = choose|q: int| 0 <= q < k + 1 && candidates@[q] == x;
                    if q == k && ok {
                        assert(valid@[v0.len() as int] == x);
                    }
                    if q < k {
                        assert(exists|q2: int| 0 <= q2 < k && candidates@[q2] == x);
                    }
                }
            }
        }
        k = k + 1;
    }
    let sorted = sort_by_count(&valid, region_sizes);
    let mut j: usize = 0;
    while j < sorted.len()
        invariant
            multi_ok(region_of@, region_symbols@, region_sizes@, symbol_of@, h * w),
            region_of@ == ro0,
            region_symbols@ == m0,
            ro0 == old(region_of)@,
            m0 == old(region_symbols)@,
            ro0[idx as int] is None,
            sym == sym_of(symbol_of@, idx as int),
            r == idx / w,
            c == idx % w,
            r < h,
            c < w,
            w > 0,
            idx < h * w,
            (h * w) as int / (w as int) == h as int,
            region_of@.len() == h * w,
            sorted@.to_multiset() == valid@.to_multiset(),
            forall|q: int| 0 <= q < valid@.len() ==> (#[trigger] valid@[q]) < region_symbols@.len(),
            forall|rid: usize|
                #[trigger] valid@.contains(rid) <==> (candidates@.contains(rid) && (sym is Some ==> !mask_bit(
                    m0[rid as int],
                    sym.unwrap() as u64,
                ))),
            forall|rid: usize|
                #[trigger] candidates@.contains(rid) <==> open_to(ro0, *pre, rid, r as int, c as int, h as int, w as int),
            forall|q: int|
                0 <= q < j ==> walled_in(ro0, *pre, #[trigger] sorted@[q], r as int, c as int, -1, h as int, w as int),
        decreases sorted@.len() - j,
    {
        let best = sorted[j];
        proof {
            vstd::seq_lib::to_multiset_contains(sorted@, best);
            vstd::seq_lib::to_multiset_contains(valid@, best);
            assert(sorted@.contains(best));
            let q = choose|q: int| 0 <= q < valid@.len() && valid@[q] == best;
            assert(valid@[q] < region_symbols@.len());
        }
        if !would_violate(region_of.as_slice(), r, c, best, pre, w) {
            proof {
                assert(valid@.contains(best));
                assert(can_take(ro0, m0, symbol_of@, *pre, idx as int, best, h as int, w as int));
                lemma_multi_assign(ro0, m0, region_sizes@, symbol_of@, h * w, idx as int, best);
            }
            region_of.set(idx, Some(best));
            if let Some(si) = sym {
                let v = region_symbols[best] | (1u64 << si as u64);
                region_symbols.set(best, v);
            }
            let sz = region_sizes[best] + 1;
            region_sizes.set(best, sz);
            return true;
        }
        j = j + 1;
    }
    proof {
        assert forall|rid: usize| !#[trigger] can_take(ro0, m0, symbol_of@, *pre, idx as int, rid, h as int, w as int) by {
            if can_take(ro0, m0, symbol_of@, *pre, idx as int, rid, h as int, w as int) {
                assert(candidates@.contains(rid));
                assert(valid@.contains(rid));
                vstd::seq_lib::to_multiset_contains(valid@, rid);
                vstd::seq_lib::to_multiset_contains(sorted@, rid);
                let q = choose|q: int| 0 <= q < sorted@.len() && sorted@[q] == rid;
                assert(walled_in(ro0, *pre, sorted@[q], r as int, c as int, -1, h as int, w as int));
            }
        }
    }
    false
}


/// Repeatedly offers every pending cell to `assign_one_leftover` until a
/// whole pass assigns none.  Cells already assigned keep their region.  The
/// result is `false` when the deadline passed first; otherwise no pending
/// cell that remains can be taken by any region.
pub fn assign_leftovers(
    region_of: &mut Vec<Option<usize>>,
    region_symbols: &mut Vec<u64>,
    region_sizes: &mut Vec<usize>,
    unassigned: &mut CellSet,
    symbol_of: &HashMap<usize, usize>,
    pre: &PreBoundaries,
    deadline: &Option<Instant>,
    h: usize,
    w: usize,
) -> (done: bool)
    requires
        multi_ok(old(region_of)@, old(region_symbols)@, old(region_sizes)@, symbol_of@, h * w),
        pending_ok(*old(unassigned), old(region_of)@),
    ensures
        multi_ok(final(region_of)@, final(region_symbols)@, final(region_sizes)@, symbol_of@, h * w),
        final(region_symbols)@.len() == old(region_symbols)@.len(),
        pending_ok(*final(unassigned), final(region_of)@),
        extends(old(region_of)@, final(region_of)@, *old(unassigned)),
        forall|i: int| #[trigger] final(unassigned).has(i) ==> old(unassigned).has(i),
        forall|i: int|
            0 <= i < h * w && old(unassigned).has(i) && !final(unassigned).has(i) ==> (#[trigger] final(region_of)@[i]) is Some,
        deadline is None ==> done,
        done ==> forall|i: int, rid: usize|
            #[trigger] final(unassigned).has(i) ==> !#[trigger] can_take(
                final(region_of)@,
                final(region_symbols)@,
                symbol_of@,
                *pre,
                i,
                rid,
                h as int,
                w as int,
            ),
{
    if unassigned.is_empty() {
        return true;
    }
    let mut changed = true;
    let mut pass: u64 = 0;
    while changed
        invariant
            multi_ok(region_of@, region_symbols@, region_sizes@, symbol_of@, h * w),
            region_symbols@.len() == old(region_symbols)@.len(),
            pending_ok(*unassigned, region_of@),
            unassigned.nbits() == old(unassigned).nbits(),
            extends(old(region_of)@, region_of@, *old(unassigned)),
            forall|i: int| #[trigger] unassigned.has(i) ==> old(unassigned).has(i),
            forall|i: int|
                0 <= i < h * w && old(unassigned).has(i) && !unassigned.has(i) ==> (#[trigger] region_of@[i]) is Some,
            !changed ==> forall|i: int, rid: usize|
                #[trigger] unassigned.has(i) ==> !#[trigger] can_take(
                    region_of@,
                    region_symbols@,
                    symbol_of@,
                    *pre,
                    i,
                    rid,
                    h as int,
                    w as int,
                ),
        decreases unassigned.elems().len() + if changed {
            1int
        } else {
            0int
        },
    {
        let ghost count0 = unassigned.elems().len();
        changed = false;
        pass = pass.wrapping_add(1);
        if pass % 64 == 0 && deadline_passed(deadline) {
            return false;
        }
        let items = unassigned.iter();
        proof {
            unassigned.lemma_elems(unassigned.nbits() as int);
            unassigned.lemma_wf_bits();
            assert forall|i: int| #[trigger] unassigned.has(i) implies items@.contains(i as usize) by {
                unassigned.lemma_has_range(i);
            }
        }
        let mut k: usize = 0;
        while k < items.len()
            invariant
                multi_ok(region_of@, region_symbols@, region_sizes@, symbol_of@, h * w),
                region_symbols@.len() == old(region_symbols)@.len(),
                pending_ok(*unassigned, region_of@),
                unassigned.nbits() == old(unassigned).nbits(),
                unassigned.nbits() <= usize::MAX,
                extends(old(region_of)@, region_of@, *old(unassigned)),
                forall|i: int| #[trigger] unassigned.has(i) ==> old(unassigned).has(i),
                forall|i: int|
                    0 <= i < h * w && old(unassigned).has(i) && !unassigned.has(i) ==> (#[trigger] region_of@[i]) is Some,
                k <= items@.len(),
                forall|a: int, b: int| 0 <= a < b < items@.len() ==> items@[a] < items@[b],
                forall|q: int| k <= q < items@.len() ==> unassigned.has(#[trigger] items@[q] as int),
                forall|i: int| #[trigger] unassigned.has(i) ==> items@.contains(i as usize),
                changed ==> unassigned.elems().len() < count0,
                !changed ==> unassigned.elems().len() == count0,
                !changed ==> forall|q: int, rid: usize|
                    0 <= q < k ==> !#[trigger] can_take(
                        region_of@,
                        region_symbols@,
                        symbol_of@,
                        *pre,
                        items@[q] as int,
                        rid,
                        h as int,
                        w as int,
                    ) || !unassigned.has(items@[q] as int),
            decreases items@.len() - k,
        {
            let idx = items[k];
            proof {
                assert(unassigned.has(idx as int));
            }
            let ghost un0 = *unassigned;
            let ghost ro0 = region_of@;
            if assign_one_leftover(region_of, region_symbols, region_sizes, idx, symbol_of, pre, h, w) {
                proof {
                    unassigned.lemma_has_range(idx as int);
                }
                unassigned.remove(idx);
                proof {
                    lemma_remove_shrinks(un0, *unassigned, idx as int);
                    assert forall|i: int| #[trigger] unassigned.has(i) implies 0 <= i < region_of@.len() && region_of@[i] is None by {
                        assert(un0.has(i) && i != idx);
                    }
                    assert forall|i: int| 0 <= i < old(region_of)@.len() && (#[trigger] old(region_of)@[i]) is Some implies region_of@[i] == old(region_of)@[i] by {
                        if i == idx {
                            assert(un0.has(i));
                        }
                    }
                    assert forall|i: int| 0 <= i < old(region_of)@.len() && old(region_of)@[i] is None && (#[trigger] region_of@[i]) is Some implies old(unassigned).has(i) by {
                        if i == idx {
                            assert(un0.has(i));
                        }
                    }
                    assert forall|q: int| k + 1 <= q < items@.len() implies unassigned.has(#[trigger] items@[q] as int) by {
                        assert(items@[k as int] < items@[q]);
                    }
                }
                changed = true;
            }
            k = k + 1;
        }
    }
    true
}


/// `ro1` comes from `ro0` by moving cell `(r, c)` of region `cur` into
/// region `nrid`, which touches it with no boundary between, lacks its
/// symbol type and holds no neighbour of it behind a boundary; `cur` stays
/// connected.
pub open spec fn multi_move(
    ro0: Seq<Option<usize>>,
    masks0: Seq<u64>,
    ro1: Seq<Option<usize>>,
    sym: Map<usize, usize>,
    pre: PreBoundaries,
    h: int,
    w: int,
    r: int,
    c: int,
    cur: usize,
    nrid: usize,
) -> bool {
    let x = r * w + c;
    &&& 0 <= r < h && 0 <= c < w
    &&& ro0[x] == Some(cur) && nrid != cur
    &&& open_to(ro0, pre, nrid, r, c, h, w)
    &&& (sym_of(sym, x) is Some ==> !mask_bit(masks0[nrid as int], sym_of(sym, x).unwrap() as u64))
    &&& !walled_in(ro0, pre, nrid, r, c, -1, h, w)
    &&& ro1 == ro0.update(x, Some(nrid))
    &&& region_connected(ro1, cur, w)
}

/// Tries to move cell `(cell_r, cell_c)` of region `cur` into another
/// region, lowest id first (see `multi_move`).
fn try_multi_move(
    region_of: &mut Vec<Option<usize>>,
    region_symbols: &mut Vec<u64>,
    region_sizes: &mut Vec<usize>,
    cell_r: usize,
    cell_c: usize,
    cur: usize,
    pre: &PreBoundaries,
    symbol_of: &HashMap<usize, usize>,
    h: usize,
    w: usize,
) -> (moved: bool)
    requires
        multi_ok(old(region_of)@, old(region_symbols)@, old(region_sizes)@, symbol_of@, h * w),
        cell_r < h,
        cell_c < w,
        w > 0,
        old(region_of)@[cell_r * w + cell_c] == Some(cur),
    ensures
        multi_ok(final(region_of)@, final(region_symbols)@, final(region_sizes)@, symbol_of@, h * w),
        final(region_symbols)@.len() == old(region_symbols)@.len(),
        moved ==> exists|nrid: usize|
            #[trigger] multi_move(
                old(region_of)@,
                old(region_symbols)@,
                final(region_of)@,
                symbol_of@,
                *pre,
                h as int,
                w as int,
                cell_r as int,
                cell_c as int,
                cur,
                nrid,
            ),
        !moved ==> final(region_of)@ == old(region_of)@ && final(region_symbols)@ == old(region_symbols)@
            && final(region_sizes)@ == old(region_sizes)@,
        !moved ==> forall|nrid: usize|
            !#[trigger] multi_move(
                old(region_of)@,
                old(region_symbols)@,
                old(region_of)@.update(cell_r * w + cell_c, Some(nrid)),
                symbol_of@,
                *pre,
                h as int,
                w as int,
                cell_r as int,
                cell_c as int,
                cur,
                nrid,
            ),
{
    broadcast use vstd::std_specs::hash::group_hash_axioms;

    proof {
        crate::edge_csp::grid::lemma_cell_id_bound(h as int, w as int, cell_r as int, cell_c as int);
    }
    let idx = cell_r * w + cell_c;
    let neigh = collect_repair_neighbors(region_of.as_slice(), pre, cell_r, cell_c, cur, h, w);
    let ghost ro0 = region_of@;
    let ghost m0 = region_symbols@;
    let ghost s0 = region_sizes@;
    proof {
        assert forall|k: int| 0 <= k < neigh@.len() implies (#[trigger] neigh@[k]) < region_symbols@.len() by {
            assert(neigh@.contains(neigh@[k]));
            let rid = neigh@[k];
            let (nr, nc) = choose|nr: int, nc: int| #[trigger] side_neighbour(h as int, w as int, cell_r as int, cell_c as int, nr, nc)
                && region_of@[nr * w + nc] == Some(rid) && !pre@.contains(spec_edge_key(cell_r, cell_c, nr as usize, nc as usize));
            crate::edge_csp::grid::lemma_cell_id_bound(h as int, w as int, nr, nc);
        }
    }
    let sym: Option<usize> = match symbol_of.get(&idx) {
        Some(ti) => Some(*ti),
        None => None,
    };
    proof {
        assert(sym == sym_of(symbol_of@, idx as int));
    }
    let sorted = sort_indices(&neigh);
    let mut j: usize = 0;
    while j < sorted.len()
        invariant
            multi_ok(region_of@, region_symbols@, region_sizes@, symbol_of@, h * w),
            region_of@ == ro0,
            region_symbols@ == m0,
            region_sizes@ == s0,
            ro0 == old(region_of)@,
            m0 == old(region_symbols)@,
            s0 == old(region_sizes)@,
            idx == cell_r * w + cell_c,
            idx < h * w,
            cell_r < h,
            cell_c < w,
            w > 0,
            ro0[idx as int] == Some(cur),
            sym == sym_of(symbol_of@, idx as int),
            sorted@.to_multiset() == neigh@.to_multiset(),
            forall|q: int| 0 <= q < neigh@.len() ==> (#[trigger] neigh@[q]) < region_symbols@.len(),
            forall|rid: usize|
                #[trigger] neigh@.contains(rid) <==> (open_to(ro0, *pre, rid, cell_r as int, cell_c as int, h as int, w as int)
                    && rid != cur),
            j <= sorted@.len(),
            forall|q: int|
                0 <= q < j ==> !multi_move(ro0, m0, ro0.update(idx as int, Some(#[trigger] sorted@[q])), symbol_of@, *pre, h as int,
                    w as int, cell_r as int, cell_c as int, cur, sorted@[q]),
        decreases sorted@.len() - j,
    {
        let nrid = sorted[j];
        proof {
            vstd::seq_lib::to_multiset_contains(sorted@, nrid);
            vstd::seq_lib::to_multiset_contains(neigh@, nrid);
            assert(sorted@.contains(nrid));
            let q = choose|q: int| 0 <= q < neigh@.len() && neigh@[q] == nrid;
            assert(neigh@[q] < region_symbols@.len());
        }
        if let Some(si) = sym {
            proof {
                assert(symbol_of@.contains_key(idx));
                crate::rose::region_match::lemma_mask_or(region_symbols@[nrid as int], si as u64, si as u64);
            }
            if (region_symbols[nrid] & (1u64 << si as u64)) != 0 {
                proof {
                    assert(!multi_move(ro0, m0, ro0.update(idx as int, Some(nrid)), symbol_of@, *pre, h as int, w as int, cell_r as int, cell_c as int, cur, nrid));
                }
                j = j + 1;
                continue;
            }
        }
        if repair_move_conflicts(region_of.as_slice(), pre, cell_r, cell_c, nrid, h, w) {
            proof {
                assert(!multi_move(ro0, m0, ro0.update(idx as int, Some(nrid)), symbol_of@, *pre, h as int, w as int, cell_r as int, cell_c as int, cur, nrid));
            }
            j = j + 1;
            continue;
        }
        proof {
            lemma_multi_move(ro0, m0, s0, symbol_of@, h * w, idx as int, cur, nrid);
        }
        if let Some(si) = sym {
            let a = region_symbols[cur] & !(1u64 << si as u64);
            region_symbols.set(cur, a);
            let b = region_symbols[nrid] | (1u64 << si as u64);
            region_symbols.set(nrid, b);
        }
        region_of.set(idx, Some(nrid));
        let a = region_sizes[cur] - 1;
        region_sizes.set(cur, a);
        let b = region_sizes[nrid] + 1;
        region_sizes.set(nrid, b);
        proof {
            assert(region_symbols@ == moved_masks(m0, sym, cur, nrid));
        }
        if !is_region_connected(region_of.as_slice(), cur, w) {
            let ghost ro1 = region_of@;
            proof {
                assert(ro1 == ro0.update(idx as int, Some(nrid)));
                assert(!multi_move(ro0, m0, ro0.update(idx as int, Some(nrid)), symbol_of@, *pre, h as int, w as int, cell_r as int, cell_c as int, cur, nrid));
            }
            let ghost m1 = region_symbols@;
            let ghost s1 = region_sizes@;
            proof {
                if let Some(t) = sym {
                    crate::rose::region_match::lemma_mask_or(m1[cur as int], t as u64, t as u64);
                }
                lemma_multi_move(ro1, m1, s1, symbol_of@, h * w, idx as int, nrid, cur);
            }
            region_of.set(idx, Some(cur));
            if let Some(si) = sym {
                let a = region_symbols[nrid] & !(1u64 << si as u64);
                region_symbols.set(nrid, a);
                let b = region_symbols[cur] | (1u64 << si as u64);
                region_symbols.set(cur, b);
            }
            let a = region_sizes[nrid] - 1;
            region_sizes.set(nrid, a);
            let b = region_sizes[cur] + 1;
            region_sizes.set(cur, b);
            proof {
                assert(region_of@ =~= ro0);
                assert(region_symbols@ == moved_masks(m1, sym, nrid, cur));
                lemma_multi_determined(ro0, m0, s0, region_symbols@, region_sizes@, symbol_of@, h * w);
            }
            j = j + 1;
            continue;
        }
        proof {
            assert(neigh@.contains(nrid));
            assert(multi_move(ro0, m0, region_of@, symbol_of@, *pre, h as int, w as int, cell_r as int, cell_c as int, cur, nrid));
        }
        return true;
    }
    proof {
        assert forall|nrid: usize| !#[trigger] multi_move(ro0, m0, ro0.update(idx as int, Some(nrid)), symbol_of@, *pre, h as int, w as int, cell_r as int, cell_c as int, cur, nrid) by {
            if multi_move(ro0, m0, ro0.update(idx as int, Some(nrid)), symbol_of@, *pre, h as int, w as int, cell_r as int, cell_c as int, cur, nrid) {
                assert(neigh@.contains(nrid));
                vstd::seq_lib::to_multiset_contains(neigh@, nrid);
                vstd::seq_lib::to_multiset_contains(sorted@, nrid);
                let q = choose|q: int| 0 <= q < sorted@.len() && sorted@[q] == nrid;
            }
        }
    }
    false
}

/// One multi-symbol repair pass: for the first violated boundary (both
/// endpoints in one region, in iteration order) where an endpoint can move
/// (see `multi_move`), move it.  The result is whether a cell moved.
pub fn repair_multisymbol(
    region_of: &mut Vec<Option<usize>>,
    region_symbols: &mut Vec<u64>,
    region_sizes: &mut Vec<usize>,
    pre: &PreBoundaries,
    symbol_of: &HashMap<usize, usize>,
    h: usize,
    w: usize,
) -> (repaired: bool)
    requires
        multi_ok(old(region_of)@, old(region_symbols)@, old(region_sizes)@, symbol_of@, h * w),
        pre_on_board(*pre, h as int, w as int),
        w > 0,
    ensures
        multi_ok(final(region_of)@, final(region_symbols)@, final(region_sizes)@, symbol_of@, h * w),
        final(region_symbols)@.len() == old(region_symbols)@.len(),
        repaired ==> exists|i: int, side: int, cur: usize, nrid: usize|
            0 <= i < pre_list(*pre).len() && 0 <= side < 2 && #[trigger] multi_move(
                old(region_of)@,
                old(region_symbols)@,
                final(region_of)@,
                symbol_of@,
                *pre,
                h as int,
                w as int,
                pre_list(*pre)[i][2 * side] as int,
                pre_list(*pre)[i][2 * side + 1] as int,
                cur,
                nrid,
            ) && violates(old(region_of)@, w as int, pre_list(*pre)[i]),
        !repaired ==> final(region_of)@ == old(region_of)@ && final(region_symbols)@ == old(region_symbols)@
            && final(region_sizes)@ == old(region_sizes)@,
        !repaired ==> forall|i: int, side: int, cur: usize, nrid: usize|
            0 <= i < pre_list(*pre).len() && 0 <= side < 2 && violates(old(region_of)@, w as int, pre_list(*pre)[i])
                ==> !#[trigger] multi_move(old(region_of)@, old(region_symbols)@, old(region_of)@.update(pre_list(*pre)[i][2 * side] as int * w + pre_list(*pre)[i][2 * side + 1] as int, Some(nrid)), symbol_of@, *pre, h as int, w as int, pre_list(*pre)[i][2 * side] as int, pre_list(*pre)[i][2 * side + 1] as int, cur, nrid),
{
    let list = pre.iter();
    proof {
        assert(list@ == pre_list(*pre));
        lemma_pre_on_board(*pre, region_of@, h as int, w as int);
    }
    let mut i: usize = 0;
    while i < list.len()
        invariant
            multi_ok(region_of@, region_symbols@, region_sizes@, symbol_of@, h * w),
            region_of@ == old(region_of)@,
            region_symbols@ == old(region_symbols)@,
            region_sizes@ == old(region_sizes)@,
            list@ == pre_list(*pre),
            pre_on_board(*pre, h as int, w as int),
            pre_indexes(*pre, region_of@.len() as int, w as int),
            w > 0,
            i <= list@.len(),
            forall|i2: int, s2: int, cur: usize, nrid: usize|
                0 <= i2 < i && 0 <= s2 < 2 && violates(old(region_of)@, w as int, pre_list(*pre)[i2])
                    ==> !#[trigger] multi_move(old(region_of)@, old(region_symbols)@, old(region_of)@.update(pre_list(*pre)[i2][2 * s2] as int * w + pre_list(*pre)[i2][2 * s2 + 1] as int, Some(nrid)), symbol_of@, *pre, h as int, w as int, pre_list(*pre)[i2][2 * s2] as int, pre_list(*pre)[i2][2 * s2 + 1] as int, cur, nrid),
        decreases list@.len() - i,
    {
        let e = list[i];
        proof {
            assert(e == pre_list(*pre)[i as int]);
            assert(e[0] < h && e[1] < w && e[2] < h && e[3] < w);
        }
        let rid1 = region_of[e[0] * w + e[1]];
        let rid2 = region_of[e[2] * w + e[3]];
        if let Some(rid) = rid1 {
            if rid2 == Some(rid) {
                let mut side: usize = 0;
                while side < 2
                    invariant
                        multi_ok(region_of@, region_symbols@, region_sizes@, symbol_of@, h * w),
                        region_of@ == old(region_of)@,
                        region_symbols@ == old(region_symbols)@,
                        region_sizes@ == old(region_sizes)@,
                        i < list@.len(),
                        list@ == pre_list(*pre),
                        e == pre_list(*pre)[i as int],
                        e[0] < h && e[1] < w && e[2] < h && e[3] < w,
                        region_of@[e[0] * w + e[1]] == Some(rid),
                        region_of@[e[2] * w + e[3]] == Some(rid),
                        w > 0,
                        side <= 2,
                        forall|i2: int, s2: int, cur: usize, nrid: usize|
                            ((0 <= i2 < i && 0 <= s2 < 2) || (i2 == i && 0 <= s2 < side)) && violates(old(region_of)@, w as int, pre_list(*pre)[i2])
                                ==> !#[trigger] multi_move(old(region_of)@, old(region_symbols)@, old(region_of)@.update(pre_list(*pre)[i2][2 * s2] as int * w + pre_list(*pre)[i2][2 * s2 + 1] as int, Some(nrid)), symbol_of@, *pre, h as int, w as int, pre_list(*pre)[i2][2 * s2] as int, pre_list(*pre)[i2][2 * s2 + 1] as int, cur, nrid),
                    decreases 2 - side,
                {
                    let (cell_r, cell_c) = if side == 0 {
                        (e[0], e[1])
                    } else {
                        (e[2], e[3])
                    };
                    if try_multi_move(region_of, region_symbols, region_sizes, cell_r, cell_c, rid, pre, symbol_of, h, w) {
                        proof {
                            let nrid = choose|nrid: usize| #[trigger] multi_move(old(region_of)@, old(region_symbols)@, region_of@, symbol_of@, *pre, h as int, w as int, cell_r as int, cell_c as int, rid, nrid);
                            assert(cell_r == e[2 * side as int] && cell_c == e[2 * side as int + 1]);
                            assert(multi_move(old(region_of)@, old(region_symbols)@, region_of@, symbol_of@, *pre, h as int, w as int, pre_list(*pre)[i as int][2 * side as int] as int, pre_list(*pre)[i as int][2 * side as int + 1] as int, rid, nrid));
                            assert(violates(old(region_of)@, w as int, pre_list(*pre)[i as int]));
                        }
                        return true;
                    }
                    proof {
                        assert(cell_r == e[2 * side as int] && cell_c == e[2 * side as int + 1]);
                        assert forall|cur: usize, nrid: usize| !#[trigger] multi_move(old(region_of)@, old(region_symbols)@, old(region_of)@.update(pre_list(*pre)[i as int][2 * side as int] as int * w + pre_list(*pre)[i as int][2 * side as int + 1] as int, Some(nrid)), symbol_of@, *pre, h as int, w as int, pre_list(*pre)[i as int][2 * side as int] as int, pre_list(*pre)[i as int][2 * side as int + 1] as int, cur, nrid) by {
                            if cur != rid {
                                assert(old(region_of)@[cell_r * w + cell_c] == Some(rid));
                            } else {
                                assert(!multi_move(old(region_of)@, old(region_symbols)@, old(region_of)@.update(cell_r * w + cell_c, Some(nrid)), symbol_of@, *pre, h as int, w as int, cell_r as int, cell_c as int, rid, nrid));
                            }
                        }
                    }
                    side = side + 1;
                }
            }
        }
        i = i + 1;
    }
    false
}


/// Opening region `masks.len()` with the single unassigned cell `x`, of
/// type `t`, keeps the state consistent.
proof fn lemma_new_region(
    ro: Seq<Option<usize>>,
    masks: Seq<u64>,
    sizes: Seq<usize>,
    sym: Map<usize, usize>,
    n: int,
    x: int,
    t: usize,
)
    requires
        multi_ok(ro, masks, sizes, sym, n),
        masks.len() < usize::MAX,
        0 <= x < n,
        ro[x] is None,
        sym_of(sym, x) == Some(t),
    ensures
        multi_ok(ro.update(x, Some(masks.len() as usize)), masks.push(1u64 << (t as u64)), sizes.push(1), sym, n),
{
    let i = masks.len() as usize;
    let ro1 = ro.update(x, Some(i));
    let masks1 = masks.push(1u64 << (t as u64));
    let sizes1 = sizes.push(1usize);
    assert(sym.contains_key(x as usize));
    assert(t < 64);
    assert forall|q: int| 0 <= q < sizes1.len() implies #[trigger] sizes1[q] == region_count(ro1, q as usize) by {
        lemma_count_change(ro, x, Some(i), q as usize);
        if q == i {
            let f = member_flags(ro, i);
            assert(marked(f) =~= Set::<usize>::empty()) by {
                assert forall|y: usize| !marked(f).contains(y) by {
                    if y < ro.len() && ro[y as int] == Some(i) {
                        assert(ro[y as int].unwrap() < masks.len());
                    }
                }
            }
        } else {
            assert(q as usize != i);
            assert(sizes1[q] == sizes[q]);
        }
    }
    assert forall|q: int, tt: u64| 0 <= q < masks1.len() && tt < 64 implies (#[trigger] mask_bit(masks1[q], tt) <==> exists|y: int|
        0 <= y < n && ro1[y] == Some(q as usize) && #[trigger] sym_of(sym, y) == Some(tt as usize)) by {
        if q == i {
            crate::rose::region_match::lemma_mask_single(t as u64, tt);
            if exists|y: int| 0 <= y < n && ro1[y] == Some(q as usize) && #[trigger] sym_of(sym, y) == Some(tt as usize) {
                let y = choose|y: int| 0 <= y < n && ro1[y] == Some(q as usize) && #[trigger] sym_of(sym, y) == Some(tt as usize);
                if y != x {
                    assert(ro[y] == Some(i));
                    assert(ro[y].unwrap() < masks.len());
                }
            }
            if tt == t as u64 {
                assert(ro1[x] == Some(q as usize) && sym_of(sym, x) == Some(tt as usize));
            }
        } else {
            assert(q as usize != i);
            assert(masks1[q] == masks[q]);
            if exists|y: int| 0 <= y < n && ro[y] == Some(q as usize) && #[trigger] sym_of(sym, y) == Some(tt as usize) {
                let y = choose|y: int| 0 <= y < n && ro[y] == Some(q as usize) && #[trigger] sym_of(sym, y) == Some(tt as usize);
                assert(ro1[y] == Some(q as usize));
            }
            if exists|y: int| 0 <= y < n && ro1[y] == Some(q as usize) && #[trigger] sym_of(sym, y) == Some(tt as usize) {
                let y = choose|y: int| 0 <= y < n && ro1[y] == Some(q as usize) && #[trigger] sym_of(sym, y) == Some(tt as usize);
                assert(y != x);
                assert(ro[y] == Some(q as usize));
            }
        }
    }
    assert forall|a: int, b: int|
        0 <= a < n && 0 <= b < n && a != b && (#[trigger] ro1[a]) is Some && ro1[a] == #[trigger] ro1[b]
            && sym_of(sym, a) is Some implies sym_of(sym, a) != sym_of(sym, b) by {
        if a == x {
            assert(ro[b] == Some(i));
            assert(ro[b].unwrap() < masks.len());
        } else if b == x {
            assert(ro[a] == Some(i));
            assert(ro[a].unwrap() < masks.len());
        } else {
            assert(ro[a] == ro1[a] && ro[b] == ro1[b]);
        }
    }
    assert forall|y: int| 0 <= y < n && (#[trigger] ro1[y]) is Some implies ro1[y].unwrap() < masks1.len() by {
        if y != x {
            assert(ro[y] == ro1[y]);
        }
    }
}

/// Most repair passes of the several-symbol growth.
pub const MULTI_REPAIR_ITER: usize = 200;

/// Region `i` holds a cell of symbol type `t`.
pub open spec fn holds_type(labels: Seq<Option<usize>>, sym: Map<usize, usize>, i: int, t: int) -> bool {
    exists|x: int| 0 <= x < labels.len() && labels[x] == Some(i as usize) && #[trigger] sym_of(sym, x) == Some(t as usize)
}

/// Every region among `0..m` holds exactly one cell of each symbol type
/// `0..ntypes`: one at least, and no two cells of a region share a type.
pub open spec fn each_type_once(labels: Seq<Option<usize>>, sym: Map<usize, usize>, m: int, ntypes: int) -> bool {
    &&& forall|i: int, t: int| 0 <= i < m && 0 <= t < ntypes ==> #[trigger] holds_type(labels, sym, i, t)
    &&& forall|a: int, b: int|
        0 <= a < labels.len() && 0 <= b < labels.len() && a != b && (#[trigger] labels[a]) is Some && labels[a]
            == #[trigger] labels[b] && sym_of(sym, a) is Some ==> sym_of(sym, a) != sym_of(sym, b)
}

/// The cells at either end of a pre-drawn boundary.
fn boundary_endpoint_set(pre: &PreBoundaries, h: usize, w: usize) -> (s: CellSet)
    requires
        pre_on_board(*pre, h as int, w as int),
        h * w <= usize::MAX - 63,
    ensures
        s.wf(),
        h * w <= s.nbits(),
{
    let n = h * w;
    let mut s = CellSet::new(n);
    let list = pre.iter();
    proof {
        assert(list@ == pre_list(*pre));
    }
    let mut i: usize = 0;
    while i < list.len()
        invariant
            list@ == pre_list(*pre),
            pre_on_board(*pre, h as int, w as int),
            n == h * w,
            s.wf(),
            n <= s.nbits(),
            i <= list@.len(),
        decreases list@.len() - i,
    {
        let e = list[i];
        proof {
            assert(e == pre_list(*pre)[i as int]);
            crate::edge_csp::grid::lemma_cell_id_bound(h as int, w as int, e[0] as int, e[1] as int);
            crate::edge_csp::grid::lemma_cell_id_bound(h as int, w as int, e[2] as int, e[3] as int);
        }
        s.insert(e[0] * w + e[1]);
        s.insert(e[2] * w + e[3]);
        i = i + 1;
    }
    s
}

/// Several-symbol growth: region `i` starts as seed `i`; regions grow
/// breadth first (`grow_initial_regions`), leftover cells of `all_positions`
/// join the smallest region that can take them (`assign_leftovers`), and
/// violated boundaries are repaired (`repair_multisymbol`, at most
/// `MULTI_REPAIR_ITER` passes).  The region label of every cell is returned
/// when every cell of `all_positions` is placed and each region holds
/// exactly one cell of each of the `ntypes` symbol types; `None` when not,
/// or when the deadline passed.
pub fn solve_multisymbol(
    puzzle: &Puzzle,
    pre: &PreBoundaries,
    seeds: &Vec<usize>,
    all_positions: &CellSet,
    ntypes: usize,
    symbol_of: &HashMap<usize, usize>,
    deadline: &Option<Instant>,
) -> (res: Option<Vec<Option<usize>>>)
    requires
        puzzle.wf(),
        puzzle.width > 0,
        pre_on_board(*pre, puzzle.height as int, puzzle.width as int),
        seeds_ok(seeds@, puzzle.height * puzzle.width),
        forall|q: int| 0 <= q < seeds@.len() ==> symbol_of@.contains_key(#[trigger] seeds@[q]),
        forall|k: usize| #[trigger] symbol_of@.contains_key(k) ==> symbol_of@[k] < ntypes,
        ntypes < 64,
        all_positions.wf(),
        puzzle.height * puzzle.width <= all_positions.nbits(),
        forall|i: int| #[trigger] all_positions.has(i) ==> i < puzzle.height * puzzle.width,
    ensures
        res matches Some(labels) ==> {
            &&& labels@.len() == puzzle.height * puzzle.width
            &&& forall|x: int| #[trigger] all_positions.has(x) ==> 0 <= x < labels@.len() && labels@[x] is Some
            &&& each_type_once(labels@, symbol_of@, seeds@.len() as int, ntypes as int)
        },
{
    broadcast use vstd::std_specs::hash::group_hash_axioms;

    if deadline_passed(deadline) {
        return None;
    }
    let h = puzzle.height;
    let w = puzzle.width;
    proof {
        crate::rose::pin::lemma_board_room(*puzzle);
    }
    let n = h * w;
    let m = seeds.len();
    let boundary_endpoints = boundary_endpoint_set(pre, h, w);
    let mut region_of: Vec<Option<usize>> = Vec::new();
    let mut k: usize = 0;
    while k < n
        invariant
            k <= n,
            region_of@ == Seq::new(k as nat, |i: int| None::<usize>),
        decreases n - k,
    {
        region_of.push(None);
        k = k + 1;
    }
    let mut region_symbols: Vec<u64> = Vec::new();
    let mut region_sizes: Vec<usize> = Vec::new();
    let mut i: usize = 0;
    while i < m
        invariant
            n == h * w,
            n <= usize::MAX - 63,
            m == seeds@.len(),
            seeds_ok(seeds@, n as int),
            forall|q: int| 0 <= q < seeds@.len() ==> symbol_of@.contains_key(#[trigger] seeds@[q]),
            forall|k: usize| #[trigger] symbol_of@.contains_key(k) ==> symbol_of@[k] < ntypes,
            ntypes < 64,
            i <= m,
            region_of@.len() == n,
            region_symbols@.len() == i,
            region_sizes@.len() == i,
            multi_ok(region_of@, region_symbols@, region_sizes@, symbol_of@, n as int),
            forall|q: int| i <= q < m ==> region_of@[(#[trigger] seeds@[q]) as int] is None,
            forall|x: int| 0 <= x < n && (#[trigger] region_of@[x]) is Some ==> exists|q: int| 0 <= q < i && seeds@[q] == x,
        decreases m - i,
    {
        let seed = seeds[i];
        let t: usize = match symbol_of.get(&seed) {
            Some(ti) => *ti,
            None => 0,
        };
        let ghost ro0 = region_of@;
        let ghost m0 = region_symbols@;
        let ghost s0 = region_sizes@;
        proof {
            assert(symbol_of@.contains_key(seed));
            assert(sym_of(symbol_of@, seed as int) == Some(t));
            assert(ro0[seed as int] is None);
            lemma_new_region(ro0, m0, s0, symbol_of@, n as int, seed as int, t);
        }
        region_symbols.push(0);
        region_sizes.push(0);
        region_of.set(seed, Some(i));
        region_symbols.set(i, 1u64 << t as u64);
        region_sizes.set(i, 1);
        proof {
            assert(region_symbols@ =~= m0.push(1u64 << (t as u64)));
            assert(region_sizes@ =~= s0.push(1usize));
            assert(m0.len() == i);
            assert(region_of@ == ro0.update(seed as int, Some(m0.len() as usize)));
            assert forall|q: int| i + 1 <= q < m implies region_of@[(#[trigger] seeds@[q]) as int] is None by {
                assert(seeds@[i as int] < seeds@[q]);
            }
            assert forall|x: int| 0 <= x < n && (#[trigger] region_of@[x]) is Some implies exists|q: int| 0 <= q < i + 1 && seeds@[q] == x by {
                if x != seed {
                    assert(ro0[x] is Some);
                } else {
                    assert(seeds@[i as int] == x);
                }
            }
        }
        i = i + 1;
    }
    grow_initial_regions(
        &mut region_of,
        &mut region_symbols,
        &mut region_sizes,
        pre,
        puzzle,
        seeds,
        symbol_of,
        &boundary_endpoints,
        h,
        w,
    );
    let mut unassigned = all_positions.copy();
    let mut x: usize = 0;
    while x < n
        invariant
            n == h * w,
            x <= n,
            region_of@.len() == n,
            unassigned.wf(),
            unassigned.nbits() == all_positions.nbits(),
            n <= unassigned.nbits(),
            forall|y: int| #[trigger] unassigned.has(y) <==> (all_positions.has(y) && !(0 <= y < x && region_of@[y] is Some)),
        decreases n - x,
    {
        if region_of[x].is_some() {
            unassigned.remove(x);
        }
        x = x + 1;
    }
    proof {
        assert forall|y: int| #[trigger] unassigned.has(y) implies 0 <= y < region_of@.len() && region_of@[y] is None by {
            unassigned.lemma_has_range(y);
        }
    }
    let ghost ro_g = region_of@;
    let ghost un_g = unassigned;
    if !assign_leftovers(
        &mut region_of,
        &mut region_symbols,
        &mut region_sizes,
        &mut unassigned,
        symbol_of,
        pre,
        deadline,
        h,
        w,
    ) {
        return None;
    }
    let ghost assigned_after = region_of@;
    let mut pass: usize = 0;
    while pass < MULTI_REPAIR_ITER
        invariant
            multi_ok(region_of@, region_symbols@, region_sizes@, symbol_of@, h * w),
            region_symbols@.len() == m,
            pre_on_board(*pre, h as int, w as int),
            w > 0,
            forall|y: int| 0 <= y < h * w ==> (#[trigger] region_of@[y] is Some) == (assigned_after[y] is Some),
        decreases MULTI_REPAIR_ITER - pass,
    {
        let ghost ro0 = region_of@;
        let ghost ms0 = region_symbols@;
        if !repair_multisymbol(&mut region_of, &mut region_symbols, &mut region_sizes, pre, symbol_of, h, w) {
            break;
        }
        proof {
            let (i, side, cur, nrid) = choose|i: int, side: int, cur: usize, nrid: usize|
                0 <= i < pre_list(*pre).len() && 0 <= side < 2 && #[trigger] multi_move(ro0, ms0, region_of@, symbol_of@, *pre, h as int, w as int, pre_list(*pre)[i][2 * side] as int, pre_list(*pre)[i][2 * side + 1] as int, cur, nrid) && violates(ro0, w as int, pre_list(*pre)[i]);
            let x = pre_list(*pre)[i][2 * side] as int * w + pre_list(*pre)[i][2 * side + 1] as int;
            assert(region_of@ == ro0.update(x, Some(nrid)));
            crate::edge_csp::grid::lemma_cell_id_bound(h as int, w as int, pre_list(*pre)[i][2 * side] as int, pre_list(*pre)[i][2 * side + 1] as int);
            assert forall|y: int| 0 <= y < h * w implies (#[trigger] region_of@[y] is Some) == (assigned_after[y] is Some) by {
                assert(ro0[y] is Some == assigned_after[y] is Some);
                if y == x {
                    assert(ro0[x] == Some(cur));
                    assert(region_of@[y] == Some(nrid));
                } else {
                    assert(region_of@[y] == ro0[y]);
                }
            }
        }
        pass = pass + 1;
    }
    proof {
        let nt = ntypes as u64;
        assert(1u64 << nt >= 1) by (bit_vector)
            requires
                nt < 64,
        ;
    }
    let all_mask: u64 = ((1u64 << ntypes as u64) - 1) as u64;
    let mut i: usize = 0;
    while i < m
        invariant
            multi_ok(region_of@, region_symbols@, region_sizes@, symbol_of@, h * w),
            region_symbols@.len() == m,
            i <= m,
            forall|q: int| 0 <= q < i ==> #[trigger] region_symbols@[q] == all_mask,
        decreases m - i,
    {
        if region_symbols[i] != all_mask {
            return None;
        }
        i = i + 1;
    }
    if !unassigned.is_empty() {
        return None;
    }
    proof {
        assert forall|x: int| #[trigger] all_positions.has(x) implies 0 <= x < region_of@.len() && region_of@[x] is Some by {
            assert(!unassigned.has(x));
            all_positions.lemma_has_range(x);
            assert(0 <= x < h * w);
            if ro_g[x] is Some {
                assert(assigned_after[x] == ro_g[x]);
            } else {
                assert(un_g.has(x));
                assert(assigned_after[x] is Some);
            }
        }
        assert forall|i: int, t: int| 0 <= i < m && 0 <= t < ntypes implies #[trigger] holds_type(region_of@, symbol_of@, i, t) by {
            crate::rose::region_match::lemma_mask_full(ntypes as u64, t as u64);
            assert(region_symbols@[i] == all_mask);
            assert(mask_bit(region_symbols@[i], t as u64));
        }
    }
    Some(region_of)
}


/// Cell index to symbol-type index, for the cells whose symbol is one of
/// `types`.
pub open spec fn type_map(p: Puzzle, types: Seq<String>) -> Map<usize, usize> {
    Map::new(
        |k: usize|
            k < p.height * p.width && cell_type(types, p.cell(k as int / p.width as int, k as int % p.width as int)) is Some,
        |k: usize| cell_type(types, p.cell(k as int / p.width as int, k as int % p.width as int)).unwrap() as usize,
    )
}

proof fn lemma_first_type(types: Seq<String>)
    requires
        types.len() > 0,
    ensures
        type_position(types, types[0]@) == 0,
    decreases types.len(),
{
    reveal_with_fuel(type_position, 2);
    if types.len() > 1 {
        lemma_first_type(types.drop_last());
        assert(types.drop_last()[0] == types[0]);
    }
}

/// Rose-window growth, the fallback to region matching: the seeds are the
/// unblocked cells holding the first symbol type, in row-major order, and
/// there must be `m` of them; with several symbol types the regions are
/// grown by `solve_multisymbol`, with one by `solve_singlesymbol`, under a
/// deadline `timeout_ms` after `start`.  A returned labelling gives each
/// region every symbol type once (several types: every cell of
/// `all_positions` placed) or exactly one symbol cell (one type).
pub fn solve_rose_growth(
    puzzle: &Puzzle,
    pre: &PreBoundaries,
    symbol_types: &[String],
    m: usize,
    all_positions: &CellSet,
    start: &Instant,
    timeout_ms: u64,
) -> (res: Option<Vec<Option<usize>>>)
    requires
        puzzle.wf(),
        puzzle.width > 0,
        pre_on_board(*pre, puzzle.height as int, puzzle.width as int),
        0 < symbol_types@.len() < 64,
        all_positions.wf(),
        puzzle.height * puzzle.width <= all_positions.nbits(),
        forall|i: int| #[trigger] all_positions.has(i) ==> i < puzzle.height * puzzle.width,
    ensures
        first_type_cells(*puzzle, symbol_types@, puzzle.height * puzzle.width).len() != m ==> res is None,
        res matches Some(labels) ==> {
            &&& labels@.len() == puzzle.height * puzzle.width
            &&& symbol_types@.len() >= 2 ==> {
                &&& forall|x: int| #[trigger] all_positions.has(x) ==> labels@[x] is Some
                &&& each_type_once(labels@, type_map(*puzzle, symbol_types@), m as int, symbol_types@.len() as int)
            }
            &&& symbol_types@.len() == 1 ==> one_symbol_each(
                labels@,
                Seq::new(labels@.len(), |i: int| puzzle.cell(i / puzzle.width as int, i % puzzle.width as int).symbol is Some),
                m as int,
                puzzle.height * puzzle.width,
            )
        },
{
    let h = puzzle.height;
    let w = puzzle.width;
    proof {
        crate::rose::pin::lemma_board_room(*puzzle);
        lemma_first_type(symbol_types@);
    }
    let deadline = checked_deadline(start, millis(timeout_ms));
    let mut seeds: Vec<usize> = Vec::new();
    let mut r: usize = 0;
    while r < h
        invariant
            puzzle.wf(),
            h == puzzle.height,
            w == puzzle.width,
            h * w <= usize::MAX - 63,
            w > 0,
            r <= h,
            0 < symbol_types@.len(),
            type_position(symbol_types@, symbol_types@[0]@) == 0,
            seeds_ok(seeds@, (r * w) as int),
            forall|q: int| 0 <= q < seeds@.len() ==> cell_type(symbol_types@, puzzle.cell((#[trigger] seeds@[q]) as int / w as int, seeds@[q] as int % w as int)) == Some(0int),
            seeds@ == first_type_cells(*puzzle, symbol_types@, (r * w) as int),
        decreases h - r,
    {
        let mut c: usize = 0;
        while c < w
            invariant
                puzzle.wf(),
                h == puzzle.height,
                w == puzzle.width,
                h * w <= usize::MAX - 63,
                w > 0,
                r < h,
                c <= w,
                0 < symbol_types@.len(),
                type_position(symbol_types@, symbol_types@[0]@) == 0,
                seeds_ok(seeds@, (r * w + c) as int),
                forall|q: int| 0 <= q < seeds@.len() ==> cell_type(symbol_types@, puzzle.cell((#[trigger] seeds@[q]) as int / w as int, seeds@[q] as int % w as int)) == Some(0int),
                seeds@ == first_type_cells(*puzzle, symbol_types@, (r * w + c) as int),
            decreases w - c,
        {
            proof {
                crate::edge_csp::grid::lemma_cell_id_bound(h as int, w as int, r as int, c as int);
            }
            let cell = &puzzle.cells[r][c];
            let take = match &cell.symbol {
                Some(sym) => !cell.blocked && *sym == symbol_types[0],
                None => false,
            };
            proof {
                assert(take == is_first_type_cell(*puzzle, symbol_types@, (r * w + c) as int));
            }
            if take {
                let ghost s0 = seeds@;
                seeds.push(r * w + c);
                proof {
                    assert(seeds@[s0.len() as int] == r * w + c);
                    assert(cell_type(symbol_types@, puzzle.cell(r as int, c as int)) == Some(0int));
                }
            }
            c = c + 1;
        }
        proof {
            assert((r * w + w) as int == ((r + 1) * w) as int) by (nonlinear_arith);
        }
        r = r + 1;
    }
    if seeds.len() != m {
        return None;
    }
    let symbol_of = symbol_index_map(puzzle, symbol_types);
    proof {
        assert(symbol_of@ =~= type_map(*puzzle, symbol_types@)) by {
            assert forall|k: usize| #[trigger] symbol_of@.contains_key(k) <==> type_map(*puzzle, symbol_types@).contains_key(k) by {
                if k < h * w {
                    crate::edge_csp::grid::lemma_pos_bounds(h as int, w as int, k as int);
                    assert(symbol_of@.contains_key(((k as int / w as int) * w + k as int % w as int) as usize) <==> cell_type(symbol_types@, puzzle.cell(k as int / w as int, k as int % w as int)).is_some());
                }
            }
            assert forall|k: usize| #[trigger] symbol_of@.contains_key(k) implies symbol_of@[k] == type_map(*puzzle, symbol_types@)[k] by {
                crate::edge_csp::grid::lemma_pos_bounds(h as int, w as int, k as int);
                assert(symbol_of@.contains_key(((k as int / w as int) * w + k as int % w as int) as usize) <==> cell_type(symbol_types@, puzzle.cell(k as int / w as int, k as int % w as int)).is_some());
            }
        }
        assert forall|q: int| 0 <= q < seeds@.len() implies symbol_of@.contains_key(#[trigger] seeds@[q]) by {
            assert(seeds@[q] < h * w);
        }
        assert forall|k: usize| #[trigger] symbol_of@.contains_key(k) implies symbol_of@[k] < symbol_types@.len() by {
            let cl = puzzle.cell(k as int / w as int, k as int % w as int);
            crate::rose::lemma_type_position_bound(symbol_types@, cl.symbol.unwrap()@);
        }
    }
    if symbol_types.len() >= 2 {
        solve_multisymbol(puzzle, pre, &seeds, all_positions, symbol_types.len(), &symbol_of, &deadline)
    } else {
        solve_singlesymbol(puzzle, pre, &seeds, all_positions, &deadline)
    }
}

} // verus!
