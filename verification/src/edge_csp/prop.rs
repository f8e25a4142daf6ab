//! Propagation support: the propagation buffers and the pure per-clue
//! conflict tests used by the propagators.

use vstd::prelude::*;
use crate::edge_csp::grid::{lemma_corner_adjacent, lemma_wf_bounds};
use crate::edge_csp::solver::Solver;
use crate::edge_csp::types::{
    CellId,
    CompassData,
    EdgeId,
    EdgeState,
    VertexClue,
    PalisadeKind,
    mask_turns,
    palisade_base_mask,
    mask_quarter_turn,
};

verus! {

/// Reusable buffers and caches owned by the propagation subsystem.
pub struct PropagationState {
    /// Pre-extracted diff clues: `(edge_id, value)`.
    pub diff_clues: Vec<(EdgeId, usize)>,
    /// Per-component minimum area.
    pub curr_min_area: Vec<usize>,
    /// Per-component maximum area.
    pub curr_max_area: Vec<usize>,
    /// Growth edges per component.
    pub growth_edges: Vec<Vec<EdgeId>>,
    /// Indices into `cell_clues` for compass clues.
    pub compass_clue_indices: Vec<usize>,
    /// Reusable BFS buffer (`usize::MAX` = unvisited).
    pub comp_buf: Vec<usize>,
    /// Scratch for the representative → contiguous-id map.
    pub id_map_buf: Vec<usize>,
    /// Scratch for the non-Cut flood-fill.
    pub pot_buf: Vec<usize>,
    /// Growing / sealed component index lists.
    pub growing_list: Vec<usize>,
    pub sealed_list: Vec<usize>,
}

impl PropagationState {
    pub fn new(diff_clues: Vec<(EdgeId, usize)>, nc: usize) -> (s: Self)
        ensures
            s.diff_clues@ == diff_clues@,
            s.comp_buf@ == Seq::new(nc as nat, |i: int| usize::MAX),
            s.id_map_buf@ == Seq::new(nc as nat, |i: int| usize::MAX),
            s.pot_buf@ == Seq::new(nc as nat, |i: int| usize::MAX),
            s.curr_min_area@.len() == 0,
            s.curr_max_area@.len() == 0,
            s.growth_edges@.len() == 0,
            s.compass_clue_indices@.len() == 0,
            s.growing_list@.len() == 0,
            s.sealed_list@.len() == 0,
    {
        let s = Self {
            diff_clues,
            curr_min_area: Vec::new(),
            curr_max_area: Vec::new(),
            growth_edges: Vec::new(),
            compass_clue_indices: Vec::new(),
            comp_buf: vec![usize::MAX; nc],
            id_map_buf: vec![usize::MAX; nc],
            pot_buf: vec![usize::MAX; nc],
            growing_list: Vec::new(),
            sealed_list: Vec::new(),
        };
        proof {
            assert(s.comp_buf@ =~= Seq::new(nc as nat, |i: int| usize::MAX));
            assert(s.id_map_buf@ =~= Seq::new(nc as nat, |i: int| usize::MAX));
            assert(s.pot_buf@ =~= Seq::new(nc as nat, |i: int| usize::MAX));
        }
        s
    }
}

/// A direction pinned to `0` on either compass forbids the other cell from
/// lying in that direction within the same piece.
pub open spec fn spec_compass_zero_conflict(
    ra: usize,
    rb: usize,
    cola: usize,
    colb: usize,
    pa: CompassData,
    pb: CompassData,
) -> bool {
    ||| (pa.n == Some(0usize) && rb < ra)
    ||| (pb.n == Some(0usize) && ra < rb)
    ||| (pa.s == Some(0usize) && rb > ra)
    ||| (pb.s == Some(0usize) && ra > rb)
    ||| (pa.e == Some(0usize) && colb > cola)
    ||| (pb.e == Some(0usize) && cola > colb)
    ||| (pa.w == Some(0usize) && colb < cola)
    ||| (pb.w == Some(0usize) && cola < colb)
}

/// Pairwise zero-value direction conflict: a direction pinned to `0` forbids
/// a neighbour in that direction from being in the same piece.
pub fn compass_zero_conflict(
    ra: usize,
    rb: usize,
    cola: usize,
    colb: usize,
    pa: &CompassData,
    pb: &CompassData,
) -> (r: bool)
    ensures
        r == spec_compass_zero_conflict(ra, rb, cola, colb, *pa, *pb),
{
    if pa.n == Some(0) && rb < ra {
        return true;
    }
    if pb.n == Some(0) && ra < rb {
        return true;
    }
    if pa.s == Some(0) && rb > ra {
        return true;
    }
    if pb.s == Some(0) && ra > rb {
        return true;
    }
    if pa.e == Some(0) && colb > cola {
        return true;
    }
    if pb.e == Some(0) && cola > colb {
        return true;
    }
    if pa.w == Some(0) && colb < cola {
        return true;
    }
    if pb.w == Some(0) && cola < colb {
        return true;
    }
    false
}

/// Pairwise value-ordering conflict along one compass axis: if `a` lies
/// strictly before `b` on the axis, `b`'s count must be smaller than `a`'s;
/// strictly after, the reverse; level, the counts must agree.
pub open spec fn spec_compass_dir_conflict(
    before: bool,
    after: bool,
    a_val: Option<usize>,
    b_val: Option<usize>,
) -> bool {
    if before {
        a_val.is_some() && b_val.is_some() && b_val.unwrap() >= a_val.unwrap()
    } else if after {
        a_val.is_some() && b_val.is_some() && a_val.unwrap() >= b_val.unwrap()
    } else {
        a_val.is_some() && b_val.is_some() && a_val.unwrap() != b_val.unwrap()
    }
}

pub fn compass_dir_conflict(
    before: bool,
    after: bool,
    a_val: Option<usize>,
    b_val: Option<usize>,
) -> (r: bool)
    ensures
        r == spec_compass_dir_conflict(before, after, a_val, b_val),
{
    if before {
        if let (Some(vb), Some(va)) = (b_val, a_val) {
            if vb >= va {
                return true;
            }
        }
    } else if after {
        if let (Some(va), Some(vb)) = (a_val, b_val) {
            if va >= vb {
                return true;
            }
        }
    } else if let (Some(va), Some(vb)) = (a_val, b_val) {
        if va != vb {
            return true;
        }
    }
    false
}

/// Side `k` of mask `m` agrees with a decided edge state.
pub open spec fn side_ok(m: u8, k: int, st: EdgeState) -> bool {
    match st {
        EdgeState::Cut => (m >> (k as u8)) & 1 == 1,
        EdgeState::Uncut => (m >> (k as u8)) & 1 == 0,
        EdgeState::Unknown => true,
    }
}

pub open spec fn spec_star_mask_ok(m: u8, states: [EdgeState; 4]) -> bool {
    forall|k: int| 0 <= k < 4 ==> #[trigger] side_ok(m, k, states[k])
}

/// A star mask agrees with every decided incident edge.
pub fn star_mask_ok(m: u8, states: [EdgeState; 4]) -> (r: bool)
    ensures
        r == spec_star_mask_ok(m, states),
{
    let mut k: usize = 0;
    while k < 4
        invariant
            k <= 4,
            forall|j: int| 0 <= j < k ==> #[trigger] side_ok(m, j, states[j]),
        decreases 4 - k,
    {
        let ok = match states[k] {
            EdgeState::Cut => (m >> (k as u8)) & 1 == 1,
            EdgeState::Uncut => (m >> (k as u8)) & 1 == 0,
            EdgeState::Unknown => true,
        };
        if !ok {
            proof {
                assert(!side_ok(m, k as int, states[k as int]));
            }
            return false;
        }
        k = k + 1;
    }
    true
}

/// Rotation `j` of `kind` repeats an earlier rotation.
pub open spec fn repeats_earlier(kind: PalisadeKind, j: int) -> bool {
    exists|i: int|
        0 <= i < j && #[trigger] mask_turns(palisade_base_mask(kind), i as nat) == mask_turns(
            palisade_base_mask(kind),
            j as nat,
        )
}

/// The distinct rotation masks among the first `k` rotations of `kind`, in
/// order of first appearance, that agree with `states`.
pub open spec fn star_list(kind: PalisadeKind, states: [EdgeState; 4], k: int) -> Seq<u8>
    decreases k,
{
    if k <= 0 {
        Seq::empty()
    } else {
        let prev = star_list(kind, states, k - 1);
        let m = mask_turns(palisade_base_mask(kind), (k - 1) as nat);
        if !repeats_earlier(kind, k - 1) && spec_star_mask_ok(m, states) {
            prev.push(m)
        } else {
            prev
        }
    }
}

pub proof fn lemma_mask_small(m: u8, k: nat)
    requires
        m < 16,
    ensures
        mask_turns(m, k) < 16,
    decreases k,
{
    if k > 0 {
        lemma_mask_small(m, (k - 1) as nat);
        let x = mask_turns(m, (k - 1) as nat);
        assert(mask_quarter_turn(x) < 16) by (bit_vector);
    }
}

/// Rotation masks of a `PalisadeKind` compatible with the given incident edge
/// states (mask bits N,S,W,E), each mask once.
pub fn star_placements(kind: PalisadeKind, states: [EdgeState; 4]) -> (out: Vec<u8>)
    ensures
        out@ == star_list(kind, states, 4),
{
    let mut out: Vec<u8> = Vec::new();
    let mut seen = [false; 16];
    let mut rot: usize = 0;
    while rot < 4
        invariant
            rot <= 4,
            out@ == star_list(kind, states, rot as int),
            forall|m: int|
                0 <= m < 16 ==> (#[trigger] seen@[m] <==> exists|i: int|
                    0 <= i < rot && #[trigger] mask_turns(palisade_base_mask(kind), i as nat) == m),
        decreases 4 - rot,
    {
        let (_ec, em) = kind.pattern_at_rotation(rot);
        proof {
            lemma_mask_small(palisade_base_mask(kind), rot as nat);
            assert(em == mask_turns(palisade_base_mask(kind), rot as nat));
            if seen@[em as int] {
                let i = choose|i: int|
                    0 <= i < rot && #[trigger] mask_turns(palisade_base_mask(kind), i as nat) == em as int;
                assert(repeats_earlier(kind, rot as int));
            }
            if repeats_earlier(kind, rot as int) {
                let i = choose|i: int|
                    0 <= i < rot && #[trigger] mask_turns(palisade_base_mask(kind), i as nat) == mask_turns(
                        palisade_base_mask(kind),
                        rot as nat,
                    );
                assert(mask_turns(palisade_base_mask(kind), i as nat) == em as int);
                assert(seen@[em as int]);
            }
        }
        if seen[em as usize] {
            rot = rot + 1;
            continue;
        }
        seen[em as usize] = true;
        if star_mask_ok(em, states) {
            out.push(em);
        }
        proof {
            assert forall|m: int| 0 <= m < 16 implies (#[trigger] seen@[m] <==> exists|i: int|
                0 <= i < rot + 1 && #[trigger] mask_turns(palisade_base_mask(kind), i as nat) == m) by {
                if m == em {
                    assert(mask_turns(palisade_base_mask(kind), rot as nat) == m);
                }
            }
        }
        rot = rot + 1;
    }
    out
}

/// How many of the edges `eids` are in state `s`.
pub open spec fn count_in_state(edges: Seq<EdgeState>, eids: Seq<EdgeId>, s: EdgeState) -> int
    decreases eids.len(),
{
    if eids.len() == 0 {
        0
    } else {
        count_in_state(edges, eids.drop_last(), s) + if edges[eids.last() as int] == s {
            1int
        } else {
            0int
        }
    }
}

/// `edges` with every undecided edge among `eids` set to `s`.
pub open spec fn force_all(edges: Seq<EdgeState>, eids: Seq<EdgeId>, s: EdgeState) -> Seq<EdgeState> {
    Seq::new(
        edges.len(),
        |e: int|
            if eids.contains(e as usize) && edges[e] == EdgeState::Unknown {
                s
            } else {
                edges[e]
            },
    )
}

/// The verdict on a group of edges with `cut` cut and `unk` undecided ones
/// when the number of cut edges must satisfy `allowed`: `None` when no
/// allowed count can still be reached; `Some(Some(Uncut))` when the present
/// cut count is the only reachable allowed one, `Some(Some(Cut))` when only
/// cutting every undecided edge reaches an allowed count (each with some
/// undecided edge to force); `Some(None)` otherwise.
pub open spec fn count_verdict(allowed: spec_fn(int) -> bool, cut: int, unk: int) -> Option<Option<EdgeState>> {
    if !exists|d: int| #[trigger] allowed(d) && cut <= d <= cut + unk {
        None
    } else if unk > 0 && forall|d: int| #[trigger] allowed(d) && cut <= d <= cut + unk ==> d == cut {
        Some(Some(EdgeState::Uncut))
    } else if unk > 0 && forall|d: int| #[trigger] allowed(d) && cut <= d <= cut + unk ==> d == cut + unk {
        Some(Some(EdgeState::Cut))
    } else {
        Some(None)
    }
}

/// The cut counts among the internal edges of a watchtower grid point that
/// the clue `value` allows: with four cells around (a cycle) a clue of 1
/// allows at most one cut and a larger clue at least `value`; with two or
/// three cells (a path) a clue of 2 allows one or more, any other clue
/// exactly `value - 1`.
pub open spec fn pass_b_allowed(value: usize, cycle: bool) -> spec_fn(int) -> bool {
    |d: int|
        if cycle {
            if value == 1 {
                d <= 1
            } else {
                d >= value
            }
        } else if value == 2 {
            d >= 1
        } else {
            d == (if value >= 1 { value - 1 } else { 0 })
        }
}

/// The edge-count verdict on one watchtower grid point with `n` existing
/// cells and `n_edges` internal edges, `cut` of them cut and `unk`
/// undecided, where `cycle` says the four cells close a cycle: no rule for a
/// point without cells or a lone cell with clue 1; a contradiction for a
/// lone cell with a larger clue; no rule for a clue above the cell count or
/// a point without internal edges; otherwise the verdict of the allowed cut
/// counts (see `pass_b_allowed` and `count_verdict`).
pub open spec fn pass_b_verdict(value: usize, n: int, n_edges: int, cycle: bool, cut: int, unk: int) -> Option<Option<EdgeState>> {
    if n == 0 || (n == 1 && value == 1) {
        Some(None)
    } else if value > n || n == 1 || n_edges == 0 {
        if n == 1 && value > 1 {
            None
        } else {
            Some(None)
        }
    } else {
        count_verdict(pass_b_allowed(value, cycle), cut, unk)
    }
}

/// When the allowed counts within reach form the interval `[a, b]`, the
/// verdict is read off its ends.
proof fn lemma_count_verdict_interval(allowed: spec_fn(int) -> bool, cut: int, unk: int, a: int, b: int)
    requires
        unk >= 0,
        forall|d: int| cut <= d <= cut + unk ==> (#[trigger] allowed(d) <==> a <= d <= b),
    ensures
        ({
            let lo = if a > cut { a } else { cut };
            let hi = if b < cut + unk { b } else { cut + unk };
            count_verdict(allowed, cut, unk) == if lo > hi {
                None
            } else if unk > 0 && hi == cut {
                Some(Some(EdgeState::Uncut))
            } else if unk > 0 && lo == cut + unk {
                Some(Some(EdgeState::Cut))
            } else {
                Some(None)
            }
        }),
{
    let lo = if a > cut { a } else { cut };
    let hi = if b < cut + unk { b } else { cut + unk };
    if lo <= hi {
        assert(allowed(lo) && cut <= lo <= cut + unk);
        assert(allowed(hi) && cut <= hi <= cut + unk);
    }
}

fn pass_b_decide(value: usize, n: usize, n_edges: usize, n_cut: usize, x: usize) -> (r: Option<Option<EdgeState>>)
    requires
        n_cut <= n_edges,
        x <= n_edges,
        n_edges <= 4,
    ensures
        r == pass_b_verdict(value, n as int, n_edges as int, n == 4 && n_edges == 4, n_cut as int, x as int),
{
    if n == 0 || (n == 1 && value == 1) {
        Some(None)
    } else if value > n || n == 1 || n_edges == 0 {
        if n == 1 && value > 1 {
            None
        } else {
            Some(None)
        }
    } else if n == 4 && n_edges == 4 {
        proof {
            let al = pass_b_allowed(value, true);
            if value == 1 {
                lemma_count_verdict_interval(al, n_cut as int, x as int, 0, 1);
            } else {
                lemma_count_verdict_interval(al, n_cut as int, x as int, value as int, n_cut + x);
            }
        }
        if value == 1 {
            if n_cut >= 2 {
                None
            } else if n_cut == 1 && x > 0 {
                Some(Some(EdgeState::Uncut))
            } else {
                Some(None)
            }
        } else {
            if n_cut + x < value {
                None
            } else if n_cut + x == value && x > 0 {
                Some(Some(EdgeState::Cut))
            } else {
                Some(None)
            }
        }
    } else {
        let needed_k = if value >= 1 {
            value - 1
        } else {
            0
        };
        proof {
            let al = pass_b_allowed(value, false);
            if value == 2 {
                lemma_count_verdict_interval(al, n_cut as int, x as int, 1, n_cut + x);
            } else {
                lemma_count_verdict_interval(al, n_cut as int, x as int, needed_k as int, needed_k as int);
            }
        }
        if value == 2 {
            if n_cut + x < needed_k {
                None
            } else if n_cut + x == needed_k && x > 0 {
                Some(Some(EdgeState::Cut))
            } else {
                Some(None)
            }
        } else if n_cut > needed_k {
            None
        } else if n_cut == needed_k && x > 0 {
            Some(Some(EdgeState::Uncut))
        } else if n_cut + x < needed_k {
            None
        } else if n_cut + x == needed_k && x > 0 {
            Some(Some(EdgeState::Cut))
        } else {
            Some(None)
        }
    }
}

/// The boundary counts a grid point may have: the ring rule forbids exactly
/// three boundaries, the brick rule (and the point rule without ring)
/// forbids four, both together leave at most two.
pub open spec fn ring_brick_allowed(loopy: bool, bricky: bool) -> spec_fn(int) -> bool {
    |d: int|
        if loopy && bricky {
            d <= 2
        } else if loopy {
            d <= 4 && d != 3
        } else {
            d <= 3
        }
}

/// The ring / brick verdict at one grid point from its boundary count `cut`
/// (decided cuts plus grid or hole border) and its undecided internal edges
/// `unk`: the verdict of the allowed boundary counts (see
/// `ring_brick_allowed` and `count_verdict`).
pub open spec fn ring_brick_verdict(loopy: bool, bricky: bool, cut: int, unk: int) -> Option<Option<EdgeState>> {
    count_verdict(ring_brick_allowed(loopy, bricky), cut, unk)
}

/// Cut and undecided edges among `eids` are at most as many as the edges.
pub proof fn lemma_count_cut_unknown(edges: Seq<EdgeState>, eids: Seq<EdgeId>)
    ensures
        0 <= count_in_state(edges, eids, EdgeState::Cut),
        0 <= count_in_state(edges, eids, EdgeState::Unknown),
        count_in_state(edges, eids, EdgeState::Cut) + count_in_state(edges, eids, EdgeState::Unknown) <= eids.len(),
    decreases eids.len(),
{
    if eids.len() > 0 {
        lemma_count_cut_unknown(edges, eids.drop_last());
    }
}

fn ring_brick_decide(loopy: bool, bricky: bool, cut: usize, unk: usize) -> (r: Option<Option<EdgeState>>)
    requires
        cut + unk <= 4,
    ensures
        r == ring_brick_verdict(loopy, bricky, cut as int, unk as int),
{
    let ghost al = ring_brick_allowed(loopy, bricky);
    let ghost c = cut as int;
    let ghost u = unk as int;
    proof {
        if loopy && bricky {
            lemma_count_verdict_interval(al, c, u, 0, 2);
        } else if !loopy {
            lemma_count_verdict_interval(al, c, u, 0, 3);
        } else {
            if c == 3 && u == 0 {
                assert(!al(3));
            } else if c == 3 && u == 1 {
                assert(al(4) && c <= 4 <= c + u);
            } else if c == 2 && u == 1 {
                assert(al(2) && c <= 2 <= c + u);
            } else if c == 4 {
                assert(al(4) && c <= 4 <= c + u);
            } else if u == 0 {
                assert(al(c) && c <= c <= c + u);
            } else if c == 2 {
                assert(al(2) && al(4) && c <= 4 <= c + u);
            } else {
                assert(al(c) && al(c + 1) && c + 1 <= c + u);
            }
        }
    }
    if loopy && bricky {
        if cut >= 3 {
            None
        } else if cut == 2 && unk > 0 {
            Some(Some(EdgeState::Uncut))
        } else {
            Some(None)
        }
    } else if loopy {
        if cut == 3 && unk == 0 {
            None
        } else if cut == 3 && unk == 1 {
            Some(Some(EdgeState::Cut))
        } else if cut == 2 && unk == 1 {
            Some(Some(EdgeState::Uncut))
        } else {
            Some(None)
        }
    } else {
        if cut > 3 {
            None
        } else if cut == 3 && unk > 0 {
            Some(Some(EdgeState::Uncut))
        } else {
            Some(None)
        }
    }
}

impl Solver {
    /// Every clue refers to a cell, edge or grid point of the grid.
    pub open spec fn clues_in_range(&self) -> bool {
        &&& forall|i: int|
            0 <= i < self.vertex_clues@.len() ==> (#[trigger] self.vertex_clues@[i]).vertex
                < self.grid.n_vertices()
        &&& forall|i: int|
            0 <= i < self.edge_clues@.len() ==> (#[trigger] self.edge_clues@[i]).edge
                < self.grid.n_edges()
    }

    /// The cell `o` is present: on the grid and existing.
    pub open spec fn present(&self, o: Option<CellId>) -> bool {
        o is Some && self.grid.cell_exists@[o.unwrap() as int]
    }

    /// The cells around grid point `v`: top-left, top-right, bottom-left,
    /// bottom-right.
    pub open spec fn corner_cells(&self, v: int) -> [Option<CellId>; 4] {
        self.grid.spec_vertex_cells(v / (self.grid.cols + 1), v % (self.grid.cols + 1))
    }

    /// Existing cells around grid point `v`.
    pub open spec fn corner_count(&self, v: int) -> int {
        let cs = self.corner_cells(v);
        (if self.present(cs[0]) { 1int } else { 0int }) + (if self.present(cs[1]) { 1int } else { 0int })
            + (if self.present(cs[2]) { 1int } else { 0int }) + (if self.present(cs[3]) { 1int } else { 0int })
    }

    /// The edge between corner cells `a` and `b` when both are present.
    pub open spec fn corner_pair_edge(&self, cs: [Option<CellId>; 4], a: int, b: int) -> Seq<EdgeId> {
        if self.present(cs[a]) && self.present(cs[b]) {
            seq![self.grid.spec_edge_between(cs[a].unwrap() as int, cs[b].unwrap() as int) as usize]
        } else {
            Seq::empty()
        }
    }

    /// The internal edges at grid point `v` between present cells, in the
    /// order top, left, right, bottom.
    pub open spec fn corner_edges(&self, v: int) -> Seq<EdgeId> {
        let cs = self.corner_cells(v);
        self.corner_pair_edge(cs, 0, 1) + self.corner_pair_edge(cs, 0, 2) + self.corner_pair_edge(
            cs,
            1,
            3,
        ) + self.corner_pair_edge(cs, 2, 3)
    }

    pub open spec fn pass_b_clue(&self, edges: Seq<EdgeState>, clue: VertexClue) -> Option<Option<EdgeState>> {
        let v = clue.vertex as int;
        let eids = self.corner_edges(v);
        let n = self.corner_count(v);
        pass_b_verdict(
            clue.value,
            n,
            eids.len() as int,
            n == 4 && eids.len() == 4,
            count_in_state(edges, eids, EdgeState::Cut),
            count_in_state(edges, eids, EdgeState::Unknown),
        )
    }

    /// Watchtower edge-count propagation over the first `k` clues from edge
    /// states `edges`: `None` on a contradiction.
    pub open spec fn pass_b_run(&self, edges: Seq<EdgeState>, k: int) -> Option<Seq<EdgeState>>
        decreases k,
    {
        if k <= 0 {
            Some(edges)
        } else {
            match self.pass_b_run(edges, k - 1) {
                None => None,
                Some(cur) => match self.pass_b_clue(cur, self.vertex_clues@[k - 1]) {
                    None => None,
                    Some(None) => Some(cur),
                    Some(Some(s)) => Some(
                        force_all(cur, self.corner_edges(self.vertex_clues@[k - 1].vertex as int), s),
                    ),
                },
            }
        }
    }

    /// Existing cells and internal edges around the grid point `(vi, vj)`.
    pub(crate) fn corner_info(&self, vertex: usize) -> (r: (usize, Vec<EdgeId>))
        requires
            self.grid.wf(),
            vertex < self.grid.n_vertices(),
        ensures
            r.0 == self.corner_count(vertex as int),
            r.1@ == self.corner_edges(vertex as int),
            r.1@.len() <= 4,
            forall|i: int| 0 <= i < r.1@.len() ==> (#[trigger] r.1@[i]) < self.grid.n_edges(),
    {
        proof {
            lemma_wf_bounds(self.grid);
            vstd::arithmetic::div_mod::lemma_div_pos_is_pos(vertex as int, self.grid.cols + 1);
            assert((vertex as int) / (self.grid.cols + 1) <= self.grid.rows) by {
                crate::edge_csp::grid::lemma_pos_bounds(self.grid.rows + 1, self.grid.cols + 1, vertex as int);
            }
            vstd::arithmetic::div_mod::lemma_mod_bound(vertex as int, self.grid.cols + 1);
        }
        let (vi, vj) = self.grid.vertex_pos(vertex);
        assert(vi <= self.grid.rows && vj <= self.grid.cols);
        let cs = self.grid.vertex_cells(vi, vj);
        let ghost gcs = self.corner_cells(vertex as int);
        assert(cs == gcs);
        let mut n: usize = 0;
        let mut k: usize = 0;
        while k < 4
            invariant
                self.grid.wf(),
                cs == gcs,
                forall|q: int| 0 <= q < 4 && (#[trigger] cs[q]).is_some() ==> cs[q].unwrap() < self.grid.n_cells(),
                k <= 4,
                n == (if k > 0 && self.present(cs[0]) { 1int } else { 0int }) + (if k > 1 && self.present(cs[1]) { 1int } else { 0int })
                    + (if k > 2 && self.present(cs[2]) { 1int } else { 0int }) + (if k > 3 && self.present(cs[3]) { 1int } else { 0int }),
            decreases 4 - k,
        {
            if let Some(c) = cs[k] {
                if self.grid.cell_exists[c] {
                    n = n + 1;
                }
            }
            k = k + 1;
        }
        let mut eids: Vec<EdgeId> = Vec::new();
        let pairs: [(usize, usize); 4] = [(0, 1), (0, 2), (1, 3), (2, 3)];
        let mut t: usize = 0;
        while t < 4
            invariant
                self.grid.wf(),
                cs == gcs,
                forall|q: int| 0 <= q < 4 && (#[trigger] cs[q]).is_some() ==> cs[q].unwrap() < self.grid.n_cells(),
                pairs == [(0usize, 1usize), (0usize, 2usize), (1usize, 3usize), (2usize, 3usize)],
                vi <= self.grid.rows,
                vj <= self.grid.cols,
                cs == self.grid.spec_vertex_cells(vi as int, vj as int),
                t <= 4,
                eids@ == (if t > 0 { self.corner_pair_edge(cs, 0, 1) } else { Seq::empty() }) + (if t > 1 {
                    self.corner_pair_edge(cs, 0, 2)
                } else {
                    Seq::empty()
                }) + (if t > 2 { self.corner_pair_edge(cs, 1, 3) } else { Seq::empty() }) + (if t > 3 {
                    self.corner_pair_edge(cs, 2, 3)
                } else {
                    Seq::empty()
                }),
                forall|i: int| 0 <= i < eids@.len() ==> (#[trigger] eids@[i]) < self.grid.n_edges(),
                eids@.len() <= t,
            decreases 4 - t,
        {
            let (ai, bi) = pairs[t];
            let ghost before = eids@;
            if let (Some(a), Some(b)) = (cs[ai], cs[bi]) {
                if self.grid.cell_exists[a] && self.grid.cell_exists[b] {
                    match self.grid.edge_between(a, b) {
                        Some(e) => {
                            proof {
                                assert(cs[ai as int] == Some(a) && cs[bi as int] == Some(b));
                                assert(self.corner_pair_edge(cs, ai as int, bi as int) == seq![e]);
                            }
                            eids.push(e);
                        },
                        None => {
                            proof {
                                lemma_corner_adjacent(self.grid, vi as int, vj as int, ai as int, bi as int);
                            }
                        },
                    }
                }
            }
            proof {
                assert(eids@ == before + self.corner_pair_edge(cs, ai as int, bi as int));
            }
            t = t + 1;
        }
        (n, eids)
    }

    /// The number of cut edges among `eids` and the undecided ones.
    pub(crate) fn count_corner_edges(&self, eids: &Vec<EdgeId>) -> (r: (usize, Vec<EdgeId>))
        requires
            self.edges@.len() == self.grid.n_edges(),
            forall|q: int| 0 <= q < eids@.len() ==> (#[trigger] eids@[q]) < self.grid.n_edges(),
        ensures
            r.0 == count_in_state(self.edges@, eids@, EdgeState::Cut),
            r.1@.len() == count_in_state(self.edges@, eids@, EdgeState::Unknown),
            r.0 <= eids@.len(),
            r.1@.len() <= eids@.len(),
            forall|x: usize| r.1@.contains(x) <==> (eids@.contains(x) && self.edges@[x as int] == EdgeState::Unknown),
            forall|q: int| 0 <= q < r.1@.len() ==> (#[trigger] r.1@[q]) < self.grid.n_edges() && self.edges@[r.1@[q] as int] == EdgeState::Unknown,
    {
        let ghost cur = self.edges@;
        let mut n_cut: usize = 0;
        let mut unk: Vec<EdgeId> = Vec::new();
        let mut t: usize = 0;
        while t < eids.len()
            invariant
                self.edges@ == cur,
                self.edges@.len() == self.grid.n_edges(),
                forall|q: int| 0 <= q < eids@.len() ==> (#[trigger] eids@[q]) < self.grid.n_edges(),
                t <= eids@.len(),
                n_cut == count_in_state(cur, eids@.take(t as int), EdgeState::Cut),
                unk@.len() == count_in_state(cur, eids@.take(t as int), EdgeState::Unknown),
                n_cut <= t,
                unk@.len() <= t,
                forall|x: usize| unk@.contains(x) <==> (eids@.take(t as int).contains(x) && cur[x as int] == EdgeState::Unknown),
                forall|q: int| 0 <= q < unk@.len() ==> (#[trigger] unk@[q]) < self.grid.n_edges() && cur[unk@[q] as int] == EdgeState::Unknown,
            decreases eids@.len() - t,
        {
            let e = eids[t];
            let ghost unk0 = unk@;
            proof {
                assert(eids@.take(t + 1).drop_last() == eids@.take(t as int));
                assert(eids@.take(t + 1).last() == e);
            }
            match self.edges[e] {
                EdgeState::Cut => {
                    n_cut = n_cut + 1;
                },
                EdgeState::Unknown => {
                    unk.push(e);
                },
                EdgeState::Uncut => {},
            }
            proof {
                let tk1 = eids@.take(t + 1);
                let tk0 = eids@.take(t as int);
                assert forall|x: usize| unk@.contains(x) <==> (tk1.contains(x) && cur[x as int] == EdgeState::Unknown) by {
                    if tk1.contains(x) {
                        let q = choose|q: int| 0 <= q < tk1.len() && tk1[q] == x;
                        if q < t {
                            assert(tk0[q] == x);
                        }
                    }
                    if tk0.contains(x) {
                        let q = choose|q: int| 0 <= q < tk0.len() && tk0[q] == x;
                        assert(tk1[q] == x);
                    }
                    if cur[e as int] == EdgeState::Unknown {
                        assert(unk@ == unk0.push(e));
                        if unk@.contains(x) && x != e {
                            let q = choose|q: int| 0 <= q < unk@.len() && unk@[q] == x;
                            assert(unk0[q] == x);
                        }
                        if unk0.contains(x) {
                            let q = choose|q: int| 0 <= q < unk0.len() && unk0[q] == x;
                            assert(unk@[q] == x);
                        }
                        if x == e {
                            assert(unk@[unk@.len() - 1] == e);
                        }
                    } else {
                        assert(unk@ == unk0);
                    }
                }
            }
            t = t + 1;
        }
        proof {
            assert(eids@.take(t as int) == eids@);
        }
        (n_cut, unk)
    }

    /// Once a clue fails, the whole pass fails.
    pub proof fn lemma_pass_b_fail(&self, edges: Seq<EdgeState>, cur: Seq<EdgeState>, i: int)
        requires
            0 <= i < self.vertex_clues@.len(),
            self.pass_b_run(edges, i) == Some(cur),
            self.pass_b_clue(cur, self.vertex_clues@[i]) is None,
        ensures
            self.pass_b_run(edges, self.vertex_clues@.len() as int) is None,
    {
        self.lemma_pass_b_none(edges, i + 1);
    }

    pub proof fn lemma_pass_b_none(&self, edges: Seq<EdgeState>, k: int)
        requires
            1 <= k <= self.vertex_clues@.len(),
            self.pass_b_run(edges, k) is None,
        ensures
            self.pass_b_run(edges, self.vertex_clues@.len() as int) is None,
        decreases self.vertex_clues@.len() - k,
    {
        if k < self.vertex_clues@.len() {
            self.lemma_pass_b_none(edges, k + 1);
        }
    }

    /// Force every edge of `unk` to `s`; each is undecided or already `s`.
    pub(crate) fn force_edges(&mut self, unk: &Vec<EdgeId>, s: EdgeState)
        requires
            old(self).trail_ok(),
            s != EdgeState::Unknown,
            forall|i: int| 0 <= i < unk@.len() ==> (#[trigger] unk@[i]) < old(self).grid.n_edges()
                && old(self).edges@[unk@[i] as int] == EdgeState::Unknown,
        ensures
            final(self).trail_ok(),
            final(self).same_context(&*old(self)),
            final(self).pre_marked == old(self).pre_marked,
            final(self).is_pre_cut == old(self).is_pre_cut,
            final(self).edges@ == force_all(old(self).edges@, unk@, s),
            forall|e: int|
                0 <= e < old(self).edges@.len() && old(self).edges@[e] != EdgeState::Unknown
                    ==> #[trigger] final(self).edges@[e] == old(self).edges@[e],
            unk@.len() > 0 ==> final(self).edges@[unk@[0] as int] == s,
    {
        let mut t: usize = 0;
        while t < unk.len()
            invariant
                self.trail_ok(),
                self.same_context(&*old(self)),
                self.pre_marked == old(self).pre_marked,
                self.is_pre_cut == old(self).is_pre_cut,
                s != EdgeState::Unknown,
                forall|i: int| 0 <= i < unk@.len() ==> (#[trigger] unk@[i]) < old(self).grid.n_edges()
                    && old(self).edges@[unk@[i] as int] == EdgeState::Unknown,
                t <= unk@.len(),
                self.edges@ == force_all(old(self).edges@, unk@.take(t as int), s),
            decreases unk@.len() - t,
        {
            let e = unk[t];
            proof {
                assert(self.edges@[e as int] == EdgeState::Unknown || self.edges@[e as int] == s);
            }
            let ghost prev = self.edges@;
            let ok = self.set_edge(e, s);
            proof {
                lemma_wf_bounds(self.grid);
                let t0 = unk@.take(t as int);
                let t1 = unk@.take(t + 1);
                assert(t1 == t0.push(e));
                assert forall|x: int| 0 <= x < self.edges@.len() implies #[trigger] self.edges@[x] == force_all(old(self).edges@, t1, s)[x] by {
                    let xu = x as usize;
                    assert(xu as int == x);
                    if x == e as int {
                        assert(t1[t as int] == e);
                    } else {
                        if t1.contains(xu) {
                            let q = choose|q: int| 0 <= q < t1.len() && t1[q] == xu;
                            assert(q < t);
                            assert(t0[q] == xu);
                        }
                        if t0.contains(xu) {
                            let q = choose|q: int| 0 <= q < t0.len() && t0[q] == xu;
                            assert(t1[q] == xu);
                        }
                    }
                }
                assert(self.edges@ =~= force_all(old(self).edges@, t1, s));
            }
            t = t + 1;
        }
        proof {
            assert(unk@.take(t as int) == unk@);
            if unk@.len() > 0 {
                assert(unk@.contains(unk@[0]));
            }
        }
    }

    /// One clue of the edge-count watchtower pass (see `pass_b_verdict`).
    fn pass_b_step(&mut self, clue: VertexClue) -> (r: Result<bool, ()>)
        requires
            old(self).trail_ok(),
            clue.vertex < old(self).grid.n_vertices(),
        ensures
            final(self).trail_ok(),
            final(self).same_context(&*old(self)),
            final(self).pre_marked == old(self).pre_marked,
            final(self).is_pre_cut == old(self).is_pre_cut,
            forall|e: int|
                0 <= e < old(self).edges@.len() && old(self).edges@[e] != EdgeState::Unknown
                    ==> #[trigger] final(self).edges@[e] == old(self).edges@[e],
            match r {
                Ok(forced) => {
                    &&& match old(self).pass_b_clue(old(self).edges@, clue) {
                        Some(Some(s)) => final(self).edges@ == force_all(
                            old(self).edges@,
                            old(self).corner_edges(clue.vertex as int),
                            s,
                        ),
                        _ => final(self).edges@ == old(self).edges@,
                    }
                    &&& old(self).pass_b_clue(old(self).edges@, clue) is Some
                    &&& forced == (final(self).edges@ != old(self).edges@)
                    &&& forced ==> exists|w: int|
                        0 <= w < old(self).edges@.len() && old(self).edges@[w] == EdgeState::Unknown
                            && #[trigger] final(self).edges@[w] != EdgeState::Unknown
                },
                Err(_) => old(self).pass_b_clue(old(self).edges@, clue) is None,
            },
    {
        let value = clue.value;
        let (n, eids) = self.corner_info(clue.vertex);
        let ghost cur = self.edges@;
        let (n_cut, unk) = self.count_corner_edges(&eids);
        proof {
            lemma_wf_bounds(self.grid);
            assert forall|st: EdgeState| #[trigger] force_all(cur, eids@, st) =~= force_all(cur, unk@, st) by {
                assert forall|y: int| 0 <= y < cur.len() implies force_all(cur, eids@, st)[y] == force_all(cur, unk@, st)[y] by {
                    let yu = y as usize;
                    assert(yu as int == y);
                }
            }
        }
        let verdict = pass_b_decide(value, n, eids.len(), n_cut, unk.len());
        proof {
            assert(self.pass_b_clue(cur, clue) == verdict);
        }
        match verdict {
            None => Err(()),
            Some(None) => Ok(false),
            Some(Some(s)) => {
                self.force_edges(&unk, s);
                proof {
                    let w = unk@[0];
                    assert(cur[w as int] == EdgeState::Unknown);
                    assert(self.edges@[w as int] == s);
                    assert(self.edges@ != cur);
                    assert(self.edges@[w as int] != EdgeState::Unknown);
                }
                Ok(true)
            },
        }
    }

    /// Watchtower propagation from the cut count among the internal edges of
    /// each clued grid point, clue by clue (see `pass_b_verdict`): forces the
    /// undecided edges when the count leaves one choice and fails on a
    /// contradiction.  The result is whether any edge was decided.
    pub fn watchtower_pass_b(&mut self) -> (r: Result<bool, ()>)
        requires
            old(self).trail_ok(),
            old(self).clues_in_range(),
        ensures
            final(self).trail_ok(),
            final(self).same_context(&*old(self)),
            final(self).pre_marked == old(self).pre_marked,
            final(self).is_pre_cut == old(self).is_pre_cut,
            forall|e: int|
                0 <= e < old(self).edges@.len() && old(self).edges@[e] != EdgeState::Unknown
                    ==> #[trigger] final(self).edges@[e] == old(self).edges@[e],
            match r {
                Ok(progress) => {
                    &&& old(self).pass_b_run(old(self).edges@, old(self).vertex_clues@.len() as int)
                        == Some(final(self).edges@)
                    &&& progress == (final(self).edges@ != old(self).edges@)
                },
                Err(_) => old(self).pass_b_run(old(self).edges@, old(self).vertex_clues@.len() as int) is None,
            },
    {
        let mut progress = false;
        let mut i: usize = 0;
        while i < self.vertex_clues.len()
            invariant
                self.trail_ok(),
                self.same_context(&*old(self)),
                self.pre_marked == old(self).pre_marked,
                self.is_pre_cut == old(self).is_pre_cut,
                old(self).clues_in_range(),
                old(self).trail_ok(),
                self.edges@.len() == old(self).edges@.len(),
                i <= self.vertex_clues@.len(),
                old(self).pass_b_run(old(self).edges@, i as int) == Some(self.edges@),
                forall|e: int|
                    0 <= e < old(self).edges@.len() && old(self).edges@[e] != EdgeState::Unknown
                        ==> #[trigger] self.edges@[e] == old(self).edges@[e],
                progress == (self.edges@ != old(self).edges@),
            decreases self.vertex_clues@.len() - i,
        {
            let clue = self.vertex_clues[i];
            let ghost cur = self.edges@;
            let ghost before = *self;
            proof {
                assert(cur.len() == old(self).edges@.len());
                assert(forall|e: int|
                    0 <= e < old(self).edges@.len() && old(self).edges@[e] != EdgeState::Unknown
                        ==> #[trigger] cur[e] == old(self).edges@[e]);
            }
            match self.pass_b_step(clue) {
                Err(_) => {
                    proof {
                        assert(before.pass_b_clue(cur, clue) == old(self).pass_b_clue(cur, clue));
                        old(self).lemma_pass_b_fail(old(self).edges@, cur, i as int);
                        assert forall|e: int|
                            0 <= e < old(self).edges@.len() && old(self).edges@[e] != EdgeState::Unknown
                                implies #[trigger] self.edges@[e] == old(self).edges@[e] by {
                            assert(cur[e] == old(self).edges@[e]);
                        }
                    }
                    return Err(());
                },
                Ok(forced) => {
                    proof {
                        assert(before.pass_b_clue(cur, clue) == old(self).pass_b_clue(cur, clue));
                        assert(before.corner_edges(clue.vertex as int) == old(self).corner_edges(clue.vertex as int));
                        assert(old(self).pass_b_run(old(self).edges@, i + 1) == Some(self.edges@));
                        assert forall|e: int|
                            0 <= e < old(self).edges@.len() && old(self).edges@[e] != EdgeState::Unknown
                                implies #[trigger] self.edges@[e] == old(self).edges@[e] by {
                            assert(cur[e] == old(self).edges@[e]);
                        }
                        if forced {
                            let w = choose|w: int|
                                0 <= w < cur.len() && cur[w] == EdgeState::Unknown
                                    && #[trigger] self.edges@[w] != EdgeState::Unknown;
                            if old(self).edges@[w] != EdgeState::Unknown {
                                assert(cur[w] == old(self).edges@[w]);
                            }
                            assert(self.edges@[w] != old(self).edges@[w]);
                            assert(self.edges@ != old(self).edges@);
                        }
                    }
                    progress = progress || forced;
                },
            }
            i = i + 1;
        }
        Ok(progress)
    }

    /// Side pairs at grid point `v` with exactly one present cell: a piece of
    /// the grid or hole border.
    pub open spec fn border_sides(&self, v: int) -> int {
        let cs = self.corner_cells(v);
        (if self.present(cs[0]) != self.present(cs[1]) { 1int } else { 0int }) + (if self.present(cs[2])
            != self.present(cs[3]) {
            1int
        } else {
            0int
        }) + (if self.present(cs[0]) != self.present(cs[2]) { 1int } else { 0int }) + (if self.present(
            cs[1],
        ) != self.present(cs[3]) {
            1int
        } else {
            0int
        })
    }

    /// The internal edges at grid point `v` in the order top, bottom, left,
    /// right.
    pub open spec fn side_edges(&self, v: int) -> Seq<EdgeId> {
        let cs = self.corner_cells(v);
        self.corner_pair_edge(cs, 0, 1) + self.corner_pair_edge(cs, 2, 3) + self.corner_pair_edge(
            cs,
            0,
            2,
        ) + self.corner_pair_edge(cs, 1, 3)
    }

    /// At most four sides meet at a grid point: each neighbouring pair of
    /// its cells gives a border, an internal edge, or neither.
    pub proof fn lemma_border_sides_bound(&self, v: int)
        ensures
            self.border_sides(v) + self.side_edges(v).len() <= 4,
    {
    }

    pub open spec fn ring_brick_point(&self, edges: Seq<EdgeState>, v: int) -> Option<Option<EdgeState>> {
        let eids = self.side_edges(v);
        ring_brick_verdict(
            self.rules.loopy,
            self.rules.bricky,
            count_in_state(edges, eids, EdgeState::Cut) + self.border_sides(v),
            count_in_state(edges, eids, EdgeState::Unknown),
        )
    }

    /// Ring / brick propagation over the first `k` grid points (row-major)
    /// from edge states `edges`: `None` on a contradiction.
    pub open spec fn ring_brick_run(&self, edges: Seq<EdgeState>, k: int) -> Option<Seq<EdgeState>>
        decreases k,
    {
        if k <= 0 {
            Some(edges)
        } else {
            match self.ring_brick_run(edges, k - 1) {
                None => None,
                Some(cur) => match self.ring_brick_point(cur, k - 1) {
                    None => None,
                    Some(None) => Some(cur),
                    Some(Some(s)) => Some(force_all(cur, self.side_edges(k - 1), s)),
                },
            }
        }
    }

    pub proof fn lemma_ring_brick_none(&self, edges: Seq<EdgeState>, k: int, n: int)
        requires
            1 <= k <= n,
            self.ring_brick_run(edges, k) is None,
        ensures
            self.ring_brick_run(edges, n) is None,
        decreases n - k,
    {
        if k < n {
            self.lemma_ring_brick_none(edges, k + 1, n);
        }
    }

    /// Border sides and internal edges around grid point `vertex`.
    fn side_info(&self, vertex: usize) -> (r: (usize, Vec<EdgeId>))
        requires
            self.grid.wf(),
            vertex < self.grid.n_vertices(),
        ensures
            r.0 == self.border_sides(vertex as int),
            r.1@ == self.side_edges(vertex as int),
            r.1@.len() <= 4,
            forall|i: int| 0 <= i < r.1@.len() ==> (#[trigger] r.1@[i]) < self.grid.n_edges(),
    {
        proof {
            lemma_wf_bounds(self.grid);
            vstd::arithmetic::div_mod::lemma_div_pos_is_pos(vertex as int, self.grid.cols + 1);
            assert((vertex as int) / (self.grid.cols + 1) <= self.grid.rows) by {
                crate::edge_csp::grid::lemma_pos_bounds(self.grid.rows + 1, self.grid.cols + 1, vertex as int);
            }
            vstd::arithmetic::div_mod::lemma_mod_bound(vertex as int, self.grid.cols + 1);
        }
        let (vi, vj) = self.grid.vertex_pos(vertex);
        assert(vi <= self.grid.rows && vj <= self.grid.cols);
        let cs = self.grid.vertex_cells(vi, vj);
        let ghost gcs = self.corner_cells(vertex as int);
        assert(cs == gcs);
        let pairs: [(usize, usize); 4] = [(0, 1), (2, 3), (0, 2), (1, 3)];
        let mut border: usize = 0;
        let mut eids: Vec<EdgeId> = Vec::new();
        let mut t: usize = 0;
        while t < 4
            invariant
                self.grid.wf(),
                cs == gcs,
                forall|q: int| 0 <= q < 4 && (#[trigger] cs[q]).is_some() ==> cs[q].unwrap() < self.grid.n_cells(),
                pairs == [(0usize, 1usize), (2usize, 3usize), (0usize, 2usize), (1usize, 3usize)],
                vi <= self.grid.rows,
                vj <= self.grid.cols,
                cs == self.grid.spec_vertex_cells(vi as int, vj as int),
                t <= 4,
                border == (if t > 0 && self.present(cs[0]) != self.present(cs[1]) { 1int } else { 0int })
                    + (if t > 1 && self.present(cs[2]) != self.present(cs[3]) { 1int } else { 0int })
                    + (if t > 2 && self.present(cs[0]) != self.present(cs[2]) { 1int } else { 0int })
                    + (if t > 3 && self.present(cs[1]) != self.present(cs[3]) { 1int } else { 0int }),
                eids@ == (if t > 0 { self.corner_pair_edge(cs, 0, 1) } else { Seq::empty() }) + (if t > 1 {
                    self.corner_pair_edge(cs, 2, 3)
                } else {
                    Seq::empty()
                }) + (if t > 2 { self.corner_pair_edge(cs, 0, 2) } else { Seq::empty() }) + (if t > 3 {
                    self.corner_pair_edge(cs, 1, 3)
                } else {
                    Seq::empty()
                }),
                forall|i: int| 0 <= i < eids@.len() ==> (#[trigger] eids@[i]) < self.grid.n_edges(),
                eids@.len() <= t,
            decreases 4 - t,
        {
            let (ai, bi) = pairs[t];
            let ghost before = eids@;
            let fa = match cs[ai] {
                Some(c) => self.grid.cell_exists[c],
                None => false,
            };
            let fb = match cs[bi] {
                Some(c) => self.grid.cell_exists[c],
                None => false,
            };
            if fa && fb {
                let a = cs[ai].unwrap();
                let b = cs[bi].unwrap();
                match self.grid.edge_between(a, b) {
                    Some(e) => {
                        proof {
                            assert(self.corner_pair_edge(cs, ai as int, bi as int) == seq![e]);
                        }
                        eids.push(e);
                    },
                    None => {
                        proof {
                            lemma_corner_adjacent(self.grid, vi as int, vj as int, if ai < bi { ai as int } else { bi as int }, if ai < bi { bi as int } else { ai as int });
                        }
                    },
                }
            } else if fa != fb {
                border = border + 1;
            }
            proof {
                assert(eids@ == before + self.corner_pair_edge(cs, ai as int, bi as int));
            }
            t = t + 1;
        }
        (border, eids)
    }

    /// One grid point of the ring / brick propagation.
    fn ring_brick_step(&mut self, v: usize) -> (r: Result<bool, ()>)
        requires
            old(self).trail_ok(),
            v < old(self).grid.n_vertices(),
        ensures
            final(self).trail_ok(),
            final(self).same_context(&*old(self)),
            final(self).pre_marked == old(self).pre_marked,
            final(self).is_pre_cut == old(self).is_pre_cut,
            forall|e: int|
                0 <= e < old(self).edges@.len() && old(self).edges@[e] != EdgeState::Unknown
                    ==> #[trigger] final(self).edges@[e] == old(self).edges@[e],
            match r {
                Ok(forced) => {
                    &&& match old(self).ring_brick_point(old(self).edges@, v as int) {
                        Some(Some(s)) => final(self).edges@ == force_all(
                            old(self).edges@,
                            old(self).side_edges(v as int),
                            s,
                        ),
                        _ => final(self).edges@ == old(self).edges@,
                    }
                    &&& old(self).ring_brick_point(old(self).edges@, v as int) is Some
                    &&& forced == (final(self).edges@ != old(self).edges@)
                    &&& forced ==> exists|w: int|
                        0 <= w < old(self).edges@.len() && old(self).edges@[w] == EdgeState::Unknown
                            && #[trigger] final(self).edges@[w] != EdgeState::Unknown
                },
                Err(_) => old(self).ring_brick_point(old(self).edges@, v as int) is None,
            },
    {
        let (border, eids) = self.side_info(v);
        let ghost cur = self.edges@;
        let (n_cut, unk) = self.count_corner_edges(&eids);
        proof {
            lemma_wf_bounds(self.grid);
            assert forall|st: EdgeState| #[trigger] force_all(cur, eids@, st) =~= force_all(cur, unk@, st) by {
                assert forall|y: int| 0 <= y < cur.len() implies force_all(cur, eids@, st)[y] == force_all(cur, unk@, st)[y] by {
                    let yu = y as usize;
                    assert(yu as int == y);
                }
            }
        }
        proof {
            lemma_count_cut_unknown(cur, eids@);
            self.lemma_border_sides_bound(v as int);
        }
        let verdict = ring_brick_decide(self.rules.loopy, self.rules.bricky, n_cut + border, unk.len());
        match verdict {
            None => Err(()),
            Some(None) => Ok(false),
            Some(Some(s)) => {
                self.force_edges(&unk, s);
                proof {
                    let w = unk@[0];
                    assert(cur[w as int] == EdgeState::Unknown);
                    assert(self.edges@[w as int] == s);
                    assert(self.edges@ != cur);
                    assert(self.edges@[w as int] != EdgeState::Unknown);
                }
                Ok(true)
            },
        }
    }

    /// Ring / brick propagation at every grid point in row-major order (see
    /// `ring_brick_verdict`); nothing to do without either rule.  The result
    /// is whether any edge was decided.
    #[verifier::rlimit(60)]
    pub fn propagate_bricky_loopy(&mut self) -> (r: Result<bool, ()>)
        requires
            old(self).trail_ok(),
        ensures
            final(self).trail_ok(),
            final(self).same_context(&*old(self)),
            final(self).pre_marked == old(self).pre_marked,
            final(self).is_pre_cut == old(self).is_pre_cut,
            forall|e: int|
                0 <= e < old(self).edges@.len() && old(self).edges@[e] != EdgeState::Unknown
                    ==> #[trigger] final(self).edges@[e] == old(self).edges@[e],
            !old(self).rules.loopy && !old(self).rules.bricky ==> r == Ok::<bool, ()>(false)
                && final(self).edges@ == old(self).edges@,
            old(self).rules.loopy || old(self).rules.bricky ==> match r {
                Ok(progress) => {
                    &&& old(self).ring_brick_run(old(self).edges@, old(self).grid.n_vertices())
                        == Some(final(self).edges@)
                    &&& progress == (final(self).edges@ != old(self).edges@)
                },
                Err(_) => old(self).ring_brick_run(old(self).edges@, old(self).grid.n_vertices()) is None,
            },
    {
        if !self.rules.loopy && !self.rules.bricky {
            return Ok(false);
        }
        proof {
            lemma_wf_bounds(self.grid);
        }
        let nv = (self.grid.rows + 1) * (self.grid.cols + 1);
        let mut progress = false;
        let mut v: usize = 0;
        while v < nv
            invariant
                nv == old(self).grid.n_vertices(),
                old(self).rules.loopy || old(self).rules.bricky,
                self.trail_ok(),
                self.same_context(&*old(self)),
                self.pre_marked == old(self).pre_marked,
                self.is_pre_cut == old(self).is_pre_cut,
                old(self).trail_ok(),
                self.edges@.len() == old(self).edges@.len(),
                v <= nv,
                old(self).ring_brick_run(old(self).edges@, v as int) == Some(self.edges@),
                forall|e: int|
                    0 <= e < old(self).edges@.len() && old(self).edges@[e] != EdgeState::Unknown
                        ==> #[trigger] self.edges@[e] == old(self).edges@[e],
                progress == (self.edges@ != old(self).edges@),
            decreases nv - v,
        {
            let ghost cur = self.edges@;
            let ghost before = *self;
            proof {
                assert(forall|e: int|
                    0 <= e < old(self).edges@.len() && old(self).edges@[e] != EdgeState::Unknown
                        ==> #[trigger] cur[e] == old(self).edges@[e]);
            }
            match self.ring_brick_step(v) {
                Err(_) => {
                    proof {
                        assert(before.ring_brick_point(cur, v as int) == old(self).ring_brick_point(cur, v as int));
                        old(self).lemma_ring_brick_none(old(self).edges@, v + 1, nv as int);
                        assert forall|e: int|
                            0 <= e < old(self).edges@.len() && old(self).edges@[e] != EdgeState::Unknown
                                implies #[trigger] self.edges@[e] == old(self).edges@[e] by {
                            assert(cur[e] == old(self).edges@[e]);
                        }
                    }
                    return Err(());
                },
                Ok(forced) => {
                    proof {
                        assert(before.ring_brick_point(cur, v as int) == old(self).ring_brick_point(cur, v as int));
                        assert(before.side_edges(v as int) == old(self).side_edges(v as int));
                        assert(old(self).ring_brick_run(old(self).edges@, v + 1) == Some(self.edges@));
                        assert forall|e: int|
                            0 <= e < old(self).edges@.len() && old(self).edges@[e] != EdgeState::Unknown
                                implies #[trigger] self.edges@[e] == old(self).edges@[e] by {
                            assert(cur[e] == old(self).edges@[e]);
                        }
                        if forced {
                            let w = choose|w: int|
                                0 <= w < cur.len() && cur[w] == EdgeState::Unknown
                                    && #[trigger] self.edges@[w] != EdgeState::Unknown;
                            if old(self).edges@[w] != EdgeState::Unknown {
                                assert(cur[w] == old(self).edges@[w]);
                            }
                            assert(self.edges@[w] != old(self).edges@[w]);
                            assert(self.edges@ != old(self).edges@);
                        }
                    }
                    progress = progress || forced;
                },
            }
            v = v + 1;
        }
        Ok(progress)
    }
}

} // verus!
