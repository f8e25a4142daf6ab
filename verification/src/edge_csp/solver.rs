//! The edge-variable search state: three-state edges with an undo trail,
//! component caches and the edge-selection heuristics.

use vstd::prelude::*;
use std::collections::HashSet;
use std::time::Instant;
use vstd::set_lib::{set_int_range, lemma_int_range, lemma_len_subset};
use crate::clock::deadline_reached;
use crate::edge_csp::adapter::Input;
use crate::edge_csp::grid::{
    Grid,
    lemma_cell_edge_sides,
    lemma_edge_cells_between,
    lemma_edge_in_cell_edges,
    lemma_wf_bounds,
};
use crate::edge_csp::prop::PropagationState;
use crate::edge_csp::types::{
    CellClue,
    CellId,
    EdgeClue,
    EdgeClueKind,
    EdgeId,
    EdgeState,
    GlobalRules,
    VertexClue,
    VertexId,
    clue_cell,
};

verus! {

/// Undo-trail length for backtracking.
#[derive(Clone, Copy, Debug)]
pub struct Snapshot {
    pub edges: usize,
}

/// The edge-variable search state.
pub struct Solver {
    pub grid: Grid,
    pub cell_clues: Vec<CellClue>,
    pub edge_clues: Vec<EdgeClue>,
    pub vertex_clues: Vec<VertexClue>,
    pub rules: GlobalRules,
    pub edges: Vec<EdgeState>,
    /// Undo trail: (edge, previous_state), appended by every `set_edge`.
    pub changed: Vec<(EdgeId, EdgeState)>,
    pub is_pre_cut: Vec<bool>,
    pub eff_min_area: usize,
    pub eff_max_area: usize,
    pub total_cells: usize,
    pub curr_unknown: usize,
    pub node_count: u64,
    // Cached component info from the last component build.
    pub curr_comp_id: Vec<usize>,
    pub curr_comp_sz: Vec<usize>,
    pub curr_target_area: Vec<Option<usize>>,
    // Reusable buffers.
    pub q_buf: Vec<usize>,
    pub visited_buf: Vec<bool>,
    pub can_grow_buf: Vec<bool>,
    pub comp_cells: Vec<Vec<CellId>>,
    pub in_probing: bool,
    pub has_compass_clue: bool,
    pub has_palisade_clue: bool,
    pub prop: PropagationState,
    // Edge-selection cache.
    pub growth_edge_count: Vec<usize>,
    pub watchtower_vertices: HashSet<VertexId>,
    // Pre-computed cell clue index.
    pub cell_clues_indexed: Vec<Vec<usize>>,
    // Deadline / timeout bookkeeping.
    pub deadline: Instant,
    pub timed_out: bool,
    /// Whether the last component build decided an edge.
    pub build_progress: bool,
    /// Trail entries made by `mark_pre_cut` (they did not lower
    /// `curr_unknown`).
    pub pre_marked: Ghost<nat>,
}

/// `edges` with every edge recorded in `changed[k..]` put back to `Unknown`.
pub open spec fn restored(edges: Seq<EdgeState>, changed: Seq<(EdgeId, EdgeState)>, k: int) -> Seq<
    EdgeState,
> {
    Seq::new(
        edges.len(),
        |e: int|
            if exists|i: int| k <= i < changed.len() && (#[trigger] changed[i]).0 == e {
                EdgeState::Unknown
            } else {
                edges[e]
            },
    )
}

/// The trail lists each decided edge exactly once, all with previous state
/// `Unknown`.
pub open spec fn trail_consistent(edges: Seq<EdgeState>, changed: Seq<(EdgeId, EdgeState)>) -> bool {
    &&& forall|i: int|
        0 <= i < changed.len() ==> (#[trigger] changed[i]).0 < edges.len() && changed[i].1
            == EdgeState::Unknown && edges[changed[i].0 as int] != EdgeState::Unknown
    &&& forall|i: int, j: int|
        0 <= i < changed.len() && 0 <= j < changed.len() && i != j ==> (#[trigger] changed[i]).0
            != (#[trigger] changed[j]).0
    &&& forall|e: int|
        0 <= e < edges.len() && #[trigger] edges[e] != EdgeState::Unknown ==> exists|i: int|
            0 <= i < changed.len() && (#[trigger] changed[i]).0 == e
}

pub proof fn lemma_trail_len(edges: Seq<EdgeState>, changed: Seq<(EdgeId, EdgeState)>, e: int)
    requires
        trail_consistent(edges, changed),
    ensures
        changed.len() <= edges.len(),
        0 <= e < edges.len() && edges[e] == EdgeState::Unknown ==> changed.len() < edges.len(),
{
    let ids = changed.map_values(|p: (EdgeId, EdgeState)| p.0 as int);
    assert(ids.no_duplicates()) by {
        assert forall|i: int, j: int| 0 <= i < ids.len() && 0 <= j < ids.len() && i != j implies ids[i]
            != ids[j] by {
            assert(changed[i].0 != changed[j].0);
        }
    }
    ids.unique_seq_to_set();
    lemma_int_range(0, edges.len() as int);
    let range = set_int_range(0, edges.len() as int);
    assert(ids.to_set().subset_of(range)) by {
        assert forall|x: int| ids.to_set().contains(x) implies range.contains(x) by {
            let i = choose|i: int| 0 <= i < ids.len() && ids[i] == x;
            assert(changed[i].0 < edges.len());
        }
    }
    lemma_len_subset(ids.to_set(), range);
    if 0 <= e < edges.len() && edges[e] == EdgeState::Unknown {
        assert(ids.to_set().subset_of(range.remove(e))) by {
            assert forall|x: int| ids.to_set().contains(x) implies range.remove(e).contains(x) by {
                let i = choose|i: int| 0 <= i < ids.len() && ids[i] == x;
                assert(changed[i].0 < edges.len());
                assert(edges[changed[i].0 as int] != EdgeState::Unknown);
            }
        }
        lemma_len_subset(ids.to_set(), range.remove(e));
    }
}

/// Restoring the trail to its length at an earlier state gives back that
/// state's edges, provided the later state only extended the trail and kept
/// every earlier decision.
pub proof fn lemma_restore_undoes(
    e0: Seq<EdgeState>,
    t0: Seq<(EdgeId, EdgeState)>,
    e1: Seq<EdgeState>,
    t1: Seq<(EdgeId, EdgeState)>,
)
    requires
        trail_consistent(e0, t0),
        trail_consistent(e1, t1),
        e0.len() == e1.len(),
        t0.len() <= t1.len(),
        t1.take(t0.len() as int) == t0,
        forall|e: int| 0 <= e < e0.len() && e0[e] != EdgeState::Unknown ==> #[trigger] e1[e] == e0[e],
    ensures
        restored(e1, t1, t0.len() as int) == e0,
{
    assert forall|e: int| 0 <= e < e0.len() implies #[trigger] restored(e1, t1, t0.len() as int)[e]
        == e0[e] by {
        if exists|i: int| t0.len() <= i < t1.len() && (#[trigger] t1[i]).0 == e {
            let i = choose|i: int| t0.len() <= i < t1.len() && (#[trigger] t1[i]).0 == e;
            if e0[e] != EdgeState::Unknown {
                let j = choose|j: int| 0 <= j < t0.len() && (#[trigger] t0[j]).0 == e;
                assert(t1[j] == t0[j]);
            }
        } else {
            if e0[e] == EdgeState::Unknown && e1[e] != EdgeState::Unknown {
                let j = choose|j: int| 0 <= j < t1.len() && (#[trigger] t1[j]).0 == e;
                assert(j < t0.len());
                assert(t1[j] == t0[j]);
            }
        }
    }
    assert(restored(e1, t1, t0.len() as int) =~= e0);
}

/// A duplicate-free sequence of indices below `n` has at most `n` entries.
pub proof fn lemma_distinct_below(s: Seq<usize>, n: int)
    requires
        0 <= n,
        s.no_duplicates(),
        forall|i: int| 0 <= i < s.len() ==> #[trigger] s[i] < n,
    ensures
        s.len() <= n,
{
    let ids = s.map_values(|x: usize| x as int);
    assert(ids.no_duplicates()) by {
        assert forall|i: int, j: int| 0 <= i < ids.len() && 0 <= j < ids.len() && i != j implies ids[i]
            != ids[j] by {
            assert(s[i] != s[j]);
        }
    }
    ids.unique_seq_to_set();
    if n >= 0 {
        lemma_int_range(0, n);
        assert(ids.to_set().subset_of(set_int_range(0, n))) by {
            assert forall|x: int| ids.to_set().contains(x) implies set_int_range(0, n).contains(x) by {
                let i = choose|i: int| 0 <= i < ids.len() && ids[i] == x;
                assert(s[i] < n);
            }
        }
        lemma_len_subset(ids.to_set(), set_int_range(0, n));
    }
}

/// Closure of a labelling `comp` (`usize::MAX` = unlabelled) across the pair
/// of cells `a`, `b` while piece `cur` is being flooded: a side that is
/// finished (labelled, and for the current piece neither pending nor the cell
/// `skip` under expansion) has its neighbour in the same piece.
pub open spec fn closed_pair(comp: Seq<usize>, cur: usize, pending: Seq<usize>, a: int, b: int, skip: usize) -> bool {
    &&& (comp[a] != usize::MAX && comp[a] < cur) ==> comp[b] == comp[a]
    &&& (comp[b] != usize::MAX && comp[b] < cur) ==> comp[a] == comp[b]
    &&& (comp[a] == cur && a != skip && !pending.contains(a as usize)) ==> comp[b] == comp[a]
    &&& (comp[b] == cur && b != skip && !pending.contains(b as usize)) ==> comp[a] == comp[b]
}

/// Starting a new piece at an unlabelled seed keeps every closed pair closed.
pub proof fn lemma_closed_seed(comp0: Seq<usize>, comp1: Seq<usize>, cur: usize, seed: int, a: int, b: int)
    requires
        0 <= seed < comp0.len(),
        0 <= a < comp0.len(),
        0 <= b < comp0.len(),
        a != b,
        cur < usize::MAX,
        comp0[seed] == usize::MAX,
        comp1 == comp0.update(seed, cur),
        comp0[a] == comp0[b],
        comp0[a] != usize::MAX ==> comp0[a] < cur,
    ensures
        closed_pair(comp1, cur, seq![seed as usize], a, b, usize::MAX),
{
    if a == seed || b == seed {
        assert(seq![seed as usize][0] == seed as usize);
    }
}

/// Taking the next pending cell out of the queue for expansion.
pub proof fn lemma_closed_pop(comp: Seq<usize>, cur: usize, pend_old: Seq<usize>, pend_new: Seq<usize>, x: usize, a: int, b: int)
    requires
        closed_pair(comp, cur, pend_old, a, b, usize::MAX),
        0 <= a < usize::MAX,
        0 <= b < usize::MAX,
        pend_old.len() > 0,
        pend_old[0] == x,
        pend_new == pend_old.subrange(1, pend_old.len() as int),
    ensures
        closed_pair(comp, cur, pend_new, a, b, x),
{
    assert forall|y: usize| y != x && !pend_new.contains(y) implies !pend_old.contains(y) by {
        if pend_old.contains(y) {
            let w = choose|w: int| 0 <= w < pend_old.len() && pend_old[w] == y;
            assert(pend_new[w - 1] == y);
        }
    }
}

/// Labelling an unlabelled neighbour and queueing it keeps every pair closed.
pub proof fn lemma_closed_push(comp0: Seq<usize>, comp1: Seq<usize>, cur: usize, pend0: Seq<usize>, o: int, x: usize, a: int, b: int)
    requires
        closed_pair(comp0, cur, pend0, a, b, x),
        0 <= o < comp0.len(),
        0 <= a < comp0.len(),
        0 <= b < comp0.len(),
        a != b,
        cur < usize::MAX,
        comp0[o] == usize::MAX,
        comp1 == comp0.update(o, cur),
    ensures
        closed_pair(comp1, cur, pend0.push(o as usize), a, b, x),
{
    let pend1 = pend0.push(o as usize);
    assert(pend1[pend1.len() - 1] == o as usize);
    assert forall|y: usize| pend0.contains(y) implies pend1.contains(y) by {
        let w = choose|w: int| 0 <= w < pend0.len() && pend0[w] == y;
        assert(pend1[w] == y);
    }
}

/// Once both sides of every edge at the expanded cell `x` agree, `x` is
/// finished.
pub proof fn lemma_closed_finish(comp: Seq<usize>, cur: usize, pend: Seq<usize>, x: usize, a: int, b: int)
    requires
        closed_pair(comp, cur, pend, a, b, x),
        (a == x || b == x) ==> comp[a] == comp[b],
    ensures
        closed_pair(comp, cur, pend, a, b, usize::MAX),
{
}

/// With nothing pending, a closed pair of labels below or at `cur` agree.
pub proof fn lemma_closed_done(comp: Seq<usize>, cur: usize, a: int, b: int)
    requires
        closed_pair(comp, cur, Seq::empty(), a, b, usize::MAX),
        0 <= a < usize::MAX,
        0 <= b < usize::MAX,
        comp[a] != usize::MAX ==> comp[a] <= cur,
        comp[b] != usize::MAX ==> comp[b] <= cur,
    ensures
        comp[a] == comp[b],
{
}

/// Label `j` is given to some cell at or before `c`.
pub open spec fn label_seen(labels: Seq<Option<usize>>, c: int, j: int) -> bool {
    exists|d: int| 0 <= d <= c && #[trigger] labels[d] == Some(j as usize)
}

/// The diff clues `(edge, value)` among `clues`, in order.
pub open spec fn diff_list(clues: Seq<EdgeClue>) -> Seq<(EdgeId, usize)>
    decreases clues.len(),
{
    if clues.len() == 0 {
        Seq::empty()
    } else {
        let prev = diff_list(clues.drop_last());
        match clues.last().kind {
            EdgeClueKind::Diff { value } => prev.push((clues.last().edge, value)),
            _ => prev,
        }
    }
}

/// Indices `i < k` of the clues standing on cell `c`, increasing.
pub open spec fn clue_indices(clues: Seq<CellClue>, c: int, k: int) -> Seq<usize>
    decreases k,
{
    if k <= 0 {
        Seq::empty()
    } else {
        let prev = clue_indices(clues, c, k - 1);
        if clue_cell(clues[k - 1]) == c {
            prev.push((k - 1) as usize)
        } else {
            prev
        }
    }
}

/// The vertices carrying a watchtower clue.
pub open spec fn clue_vertices(clues: Seq<VertexClue>) -> Set<VertexId> {
    Set::new(|v: VertexId| exists|i: int| 0 <= i < clues.len() && (#[trigger] clues[i]).vertex == v)
}

impl Solver {
    /// The edge store and its trail are consistent with the grid, and
    /// `curr_unknown` counts the undecided edges (plus the pre-cut edges
    /// marked before the first count).
    pub open spec fn trail_ok(&self) -> bool {
        let n = self.grid.n_edges();
        &&& self.grid.wf()
        &&& self.edges@.len() == n
        &&& self.is_pre_cut@.len() == n
        &&& trail_consistent(self.edges@, self.changed@)
        &&& self.curr_unknown + self.changed@.len() == n + self.pre_marked@
        &&& self.pre_marked@ <= self.changed@.len()
    }

    /// Everything but the edge store, its trail and the counters that follow
    /// it is the same in `self` and `other`.
    pub open spec fn same_context(&self, other: &Self) -> bool {
        &&& self.grid == other.grid
        &&& self.cell_clues == other.cell_clues
        &&& self.edge_clues == other.edge_clues
        &&& self.vertex_clues == other.vertex_clues
        &&& self.rules == other.rules
        &&& self.eff_min_area == other.eff_min_area
        &&& self.eff_max_area == other.eff_max_area
        &&& self.total_cells == other.total_cells
        &&& self.node_count == other.node_count
        &&& self.curr_comp_id == other.curr_comp_id
        &&& self.curr_comp_sz == other.curr_comp_sz
        &&& self.curr_target_area == other.curr_target_area
        &&& self.q_buf == other.q_buf
        &&& self.visited_buf == other.visited_buf
        &&& self.can_grow_buf == other.can_grow_buf
        &&& self.comp_cells == other.comp_cells
        &&& self.in_probing == other.in_probing
        &&& self.has_compass_clue == other.has_compass_clue
        &&& self.has_palisade_clue == other.has_palisade_clue
        &&& self.prop == other.prop
        &&& self.growth_edge_count == other.growth_edge_count
        &&& self.watchtower_vertices == other.watchtower_vertices
        &&& self.cell_clues_indexed == other.cell_clues_indexed
        &&& self.deadline == other.deadline
        &&& self.timed_out == other.timed_out
    }

    /// Component caches are either empty or index consistently.
    pub open spec fn comps_ok(&self) -> bool {
        self.curr_comp_id@.len() == 0 || {
            &&& self.curr_comp_id@.len() == self.grid.n_cells()
            &&& self.curr_comp_sz@.len() == self.curr_target_area@.len()
            &&& forall|c: int|
                0 <= c < self.curr_comp_id@.len() && self.grid.cell_exists@[c] ==> #[trigger] self.curr_comp_id@[c]
                    < self.curr_comp_sz@.len()
        }
    }

    /// The cells on either side of edge `e` both exist.
    pub open spec fn both_exist(&self, e: int) -> bool {
        let (a, b) = self.grid.spec_edge_cells(e);
        self.grid.cell_exists@[a] && self.grid.cell_exists@[b]
    }

    /// Component `ci` is still below its target area.
    pub open spec fn below_target(&self, ci: int) -> bool {
        match self.curr_target_area@[ci] {
            Some(t) => self.curr_comp_sz@[ci] < t,
            None => false,
        }
    }

    pub open spec fn spec_prefer_cut_first(&self, e: int) -> bool {
        let (a, b) = self.grid.spec_edge_cells(e);
        self.curr_comp_id@.len() == 0 || !self.both_exist(e) || !(self.below_target(
            self.curr_comp_id@[a] as int,
        ) || self.below_target(self.curr_comp_id@[b] as int))
    }

    /// Score contribution of one side's component with respect to its target.
    pub open spec fn target_score(&self, ci: int) -> int {
        match self.curr_target_area@[ci] {
            Some(t) => if self.curr_comp_sz@[ci] < t {
                100
            } else {
                1
            },
            None => 10,
        }
    }

    /// Component `ci` has a target and a single growth edge left.
    pub open spec fn last_growth_edge(&self, ci: int) -> bool {
        ci < self.growth_edge_count@.len() && self.growth_edge_count@[ci] == 1
            && self.curr_target_area@[ci] is Some
    }

    pub open spec fn spec_sealed(&self, ci: int) -> bool {
        ci < self.can_grow_buf@.len() && !self.can_grow_buf@[ci]
    }

    /// The selection score of undecided edge `e` between existing cells.
    pub open spec fn edge_score(&self, e: int) -> int {
        let (a, b) = self.grid.spec_edge_cells(e);
        let ci1 = self.curr_comp_id@[a] as int;
        let ci2 = self.curr_comp_id@[b] as int;
        let (v1, v2) = self.grid.spec_edge_vertices(e);
        self.target_score(ci1) + self.target_score(ci2) + (if self.last_growth_edge(ci1) {
            75int
        } else {
            0
        }) + (if self.last_growth_edge(ci2) {
            75int
        } else {
            0
        }) + (if self.spec_sealed(ci1) != self.spec_sealed(ci2)
            && self.curr_target_area@[if self.spec_sealed(ci1) {
            ci2
        } else {
            ci1
        }] is Some {
            50int
        } else {
            0
        }) + (if !self.watchtower_vertices@.is_empty() && (self.watchtower_vertices@.contains(
            v1 as usize,
        ) || self.watchtower_vertices@.contains(v2 as usize)) {
            25int
        } else {
            0
        })
    }

    /// Edge `e` is a candidate for branching.
    pub open spec fn selectable(&self, e: int) -> bool {
        self.edges@[e] == EdgeState::Unknown && self.both_exist(e)
    }

    /// Edge `e` joins two existing cells into one piece: both sides exist
    /// and it is not cut.
    pub open spec fn joins(&self, e: int) -> bool {
        self.joins_by(e, false)
    }

    /// Edge `e` joins two existing cells: both sides exist and it is uncut
    /// (`uncut_only`) or not cut.
    pub open spec fn joins_by(&self, e: int, uncut_only: bool) -> bool {
        self.both_exist(e) && if uncut_only {
            self.edges@[e] == EdgeState::Uncut
        } else {
            self.edges@[e] != EdgeState::Cut
        }
    }

    /// Closure of the labelling at edge `e` while piece `cur_label` is being
    /// flooded (see `closed_pair`).
    pub open spec fn closed_on(&self, comp: Seq<usize>, cur_label: usize, pending: Seq<usize>, e: int, skip: usize) -> bool {
        closed_pair(comp, cur_label, pending, self.grid.spec_edge_cells(e).0, self.grid.spec_edge_cells(e).1, skip)
    }

    fn mark_pre_cut(&mut self, e: EdgeId)
        requires
            old(self).trail_ok(),
            e < old(self).grid.n_edges(),
        ensures
            final(self).trail_ok(),
            final(self).same_context(&*old(self)),
            final(self).curr_unknown == old(self).curr_unknown,
            final(self).is_pre_cut@ == old(self).is_pre_cut@.update(e as int, true),
            final(self).edges@ == if old(self).edges@[e as int] == EdgeState::Unknown {
                old(self).edges@.update(e as int, EdgeState::Cut)
            } else {
                old(self).edges@
            },
    {
        self.is_pre_cut.set(e, true);
        if self.edges[e] == EdgeState::Unknown {
            let ghost t0 = self.changed@;
            self.edges.set(e, EdgeState::Cut);
            self.changed.push((e, EdgeState::Unknown));
            proof {
                self.pre_marked = Ghost((self.pre_marked@ + 1) as nat);
                let t = self.changed@;
                assert(t.last().0 == e);
                assert forall|i: int, j: int|
                    0 <= i < t.len() && 0 <= j < t.len() && i != j implies (#[trigger] t[i]).0 != (#[trigger] t[j]).0 by {
                    if i == t.len() - 1 {
                        assert(old(self).edges@[t0[j].0 as int] != EdgeState::Unknown);
                    } else if j == t.len() - 1 {
                        assert(old(self).edges@[t0[i].0 as int] != EdgeState::Unknown);
                    }
                }
                assert forall|x: int|
                    0 <= x < self.edges@.len() && #[trigger] self.edges@[x] != EdgeState::Unknown implies exists|i: int|
                        0 <= i < t.len() && (#[trigger] t[i]).0 == x by {
                    if x == e {
                        assert(t[t.len() - 1].0 == x);
                    } else {
                        let i = choose|i: int| 0 <= i < t0.len() && (#[trigger] t0[i]).0 == x;
                        assert(t[i].0 == x);
                    }
                }
            }
        }
    }

    /// Decide edge `e` as `s`.  Succeeds when the edge was undecided (it is
    /// set and recorded on the trail) or already `s`; fails, changing
    /// nothing, when it holds the other decision.
    pub fn set_edge(&mut self, e: EdgeId, s: EdgeState) -> (ok: bool)
        requires
            old(self).trail_ok(),
            e < old(self).grid.n_edges(),
        ensures
            final(self).trail_ok(),
            final(self).same_context(&*old(self)),
            final(self).is_pre_cut == old(self).is_pre_cut,
            final(self).pre_marked == old(self).pre_marked,
            ok == (old(self).edges@[e as int] == s || old(self).edges@[e as int] == EdgeState::Unknown),
            old(self).edges@[e as int] == EdgeState::Unknown && s != EdgeState::Unknown ==> {
                &&& final(self).edges@ == old(self).edges@.update(e as int, s)
                &&& final(self).changed@ == old(self).changed@.push((e, EdgeState::Unknown))
            },
            !(old(self).edges@[e as int] == EdgeState::Unknown && s != EdgeState::Unknown) ==> {
                &&& final(self).edges@ == old(self).edges@
                &&& final(self).changed@ == old(self).changed@
            },
    {
        if self.edges[e] == s {
            return true;
        }
        if self.edges[e] != EdgeState::Unknown {
            return false;
        }
        proof {
            lemma_trail_len(self.edges@, self.changed@, e as int);
        }
        let ghost t0 = self.changed@;
        self.edges.set(e, s);
        self.curr_unknown = self.curr_unknown - 1;
        self.changed.push((e, EdgeState::Unknown));
        proof {
            let t = self.changed@;
            assert forall|i: int, j: int|
                0 <= i < t.len() && 0 <= j < t.len() && i != j implies (#[trigger] t[i]).0 != (#[trigger] t[j]).0 by {
                if i == t.len() - 1 {
                    assert(old(self).edges@[t0[j].0 as int] != EdgeState::Unknown);
                } else if j == t.len() - 1 {
                    assert(old(self).edges@[t0[i].0 as int] != EdgeState::Unknown);
                }
            }
            assert forall|x: int|
                0 <= x < self.edges@.len() && #[trigger] self.edges@[x] != EdgeState::Unknown implies exists|i: int|
                    0 <= i < t.len() && (#[trigger] t[i]).0 == x by {
                if x == e {
                    assert(t[t.len() - 1].0 == x);
                } else {
                    let i = choose|i: int| 0 <= i < t0.len() && (#[trigger] t0[i]).0 == x;
                    assert(t[i].0 == x);
                }
            }
        }
        true
    }

    /// A fresh search state over `input`: every edge undecided but the
    /// pre-drawn ones, which are marked and decided `Cut`.
    pub fn new(input: Input, deadline: Instant) -> (s: Self)
        requires
            input.grid.wf(),
            forall|i: int|
                0 <= i < input.pre_cut@.len() ==> (#[trigger] input.pre_cut@[i])
                    < input.grid.n_edges(),
            forall|i: int|
                0 <= i < input.cell_clues@.len() ==> clue_cell(#[trigger] input.cell_clues@[i])
                    < input.grid.n_cells(),
        ensures
            s.trail_ok(),
            s.grid == input.grid,
            s.cell_clues@ == input.cell_clues@,
            s.edge_clues@ == input.edge_clues@,
            s.vertex_clues@ == input.vertex_clues@,
            s.rules == input.rules,
            forall|e: int|
                0 <= e < s.grid.n_edges() ==> (#[trigger] s.is_pre_cut@[e])
                    == input.pre_cut@.contains(e as usize),
            forall|e: int|
                0 <= e < s.grid.n_edges() ==> #[trigger] s.edges@[e] == if input.pre_cut@.contains(
                    e as usize,
                ) {
                    EdgeState::Cut
                } else {
                    EdgeState::Unknown
                },
            s.curr_unknown == s.grid.n_edges(),
            s.eff_min_area == input.min_area,
            s.eff_max_area == input.max_area,
            s.total_cells == 0,
            s.node_count == 0,
            s.curr_comp_id@.len() == 0,
            s.curr_comp_sz@.len() == 0,
            s.curr_target_area@.len() == 0,
            s.q_buf@.len() == 0,
            s.visited_buf@ == Seq::new(s.grid.n_cells() as nat, |i: int| false),
            s.can_grow_buf@.len() == 0,
            s.comp_cells@.len() == 0,
            !s.in_probing,
            s.has_compass_clue == exists|i: int|
                0 <= i < input.cell_clues@.len() && (#[trigger] input.cell_clues@[i]) is Compass,
            s.has_palisade_clue == exists|i: int|
                0 <= i < input.cell_clues@.len() && (#[trigger] input.cell_clues@[i]) is Palisade,
            s.prop.diff_clues@ == diff_list(input.edge_clues@),
            s.prop.comp_buf@ == Seq::new(s.grid.n_cells() as nat, |i: int| usize::MAX),
            s.prop.id_map_buf@ == Seq::new(s.grid.n_cells() as nat, |i: int| usize::MAX),
            s.prop.pot_buf@ == Seq::new(s.grid.n_cells() as nat, |i: int| usize::MAX),
            s.prop.curr_min_area@.len() == 0,
            s.prop.curr_max_area@.len() == 0,
            s.prop.growth_edges@.len() == 0,
            s.prop.compass_clue_indices@.len() == 0,
            s.prop.growing_list@.len() == 0,
            s.prop.sealed_list@.len() == 0,
            s.growth_edge_count@.len() == 0,
            s.watchtower_vertices@ == clue_vertices(input.vertex_clues@),
            s.cell_clues_indexed@.len() == s.grid.n_cells(),
            forall|c: int|
                0 <= c < s.grid.n_cells() ==> (#[trigger] s.cell_clues_indexed@[c])@ == clue_indices(
                    input.cell_clues@,
                    c,
                    input.cell_clues@.len() as int,
                ),
            s.deadline == deadline,
            !s.timed_out,
    {
        broadcast use vstd::std_specs::hash::group_hash_axioms;

        let n = input.grid.num_edges();
        let nc = input.grid.num_cells();

        let mut cell_clues_indexed: Vec<Vec<usize>> = Vec::new();
        let mut c: usize = 0;
        while c < nc
            invariant
                c <= nc,
                cell_clues_indexed@.len() == c,
                forall|x: int| 0 <= x < c ==> (#[trigger] cell_clues_indexed@[x])@.len() == 0,
            decreases nc - c,
        {
            cell_clues_indexed.push(Vec::new());
            c = c + 1;
        }
        let mut i: usize = 0;
        while i < input.cell_clues.len()
            invariant
                nc == input.grid.n_cells(),
                i <= input.cell_clues@.len(),
                cell_clues_indexed@.len() == nc,
                forall|k: int|
                    0 <= k < input.cell_clues@.len() ==> clue_cell(#[trigger] input.cell_clues@[k])
                        < nc,
                forall|x: int|
                    0 <= x < nc ==> (#[trigger] cell_clues_indexed@[x])@ == clue_indices(
                        input.cell_clues@,
                        x,
                        i as int,
                    ),
            decreases input.cell_clues@.len() - i,
        {
            let cc = input.cell_clues[i].cell();
            cell_clues_indexed[cc].push(i);
            proof {
                assert forall|x: int| 0 <= x < nc implies (#[trigger] cell_clues_indexed@[x])@
                    == clue_indices(input.cell_clues@, x, i + 1) by {
                    assert(clue_indices(input.cell_clues@, x, i + 1) == if clue_cell(
                        input.cell_clues@[i as int],
                    ) == x {
                        clue_indices(input.cell_clues@, x, i as int).push(i)
                    } else {
                        clue_indices(input.cell_clues@, x, i as int)
                    });
                }
            }
            i = i + 1;
        }

        let mut diff_clues: Vec<(EdgeId, usize)> = Vec::new();
        let mut i: usize = 0;
        while i < input.edge_clues.len()
            invariant
                i <= input.edge_clues@.len(),
                diff_clues@ == diff_list(input.edge_clues@.take(i as int)),
            decreases input.edge_clues@.len() - i,
        {
            let cl = input.edge_clues[i];
            proof {
                assert(input.edge_clues@.take(i + 1).drop_last() == input.edge_clues@.take(i as int));
            }
            match cl.kind {
                EdgeClueKind::Diff { value } => diff_clues.push((cl.edge, value)),
                _ => {},
            }
            i = i + 1;
        }
        proof {
            assert(input.edge_clues@.take(input.edge_clues@.len() as int) == input.edge_clues@);
        }

        let mut watchtower_vertices: HashSet<VertexId> = HashSet::new();
        let mut i: usize = 0;
        while i < input.vertex_clues.len()
            invariant
                i <= input.vertex_clues@.len(),
                watchtower_vertices@ == clue_vertices(input.vertex_clues@.take(i as int)),
            decreases input.vertex_clues@.len() - i,
        {
            watchtower_vertices.insert(input.vertex_clues[i].vertex);
            proof {
                let pre = input.vertex_clues@.take(i as int);
                let post = input.vertex_clues@.take(i + 1);
                assert forall|v: VertexId| watchtower_vertices@.contains(v) == clue_vertices(post).contains(v) by {
                    if v == input.vertex_clues@[i as int].vertex {
                        assert(post[i as int].vertex == v);
                    }
                    if clue_vertices(pre).contains(v) {
                        let j = choose|j: int| 0 <= j < pre.len() && (#[trigger] pre[j]).vertex == v;
                        assert(post[j] == pre[j]);
                    }
                    if clue_vertices(post).contains(v) {
                        let j = choose|j: int| 0 <= j < post.len() && (#[trigger] post[j]).vertex == v;
                        if j < i {
                            assert(post[j] == pre[j]);
                        }
                    }
                }
                assert(watchtower_vertices@ =~= clue_vertices(post));
            }
            i = i + 1;
        }
        proof {
            assert(input.vertex_clues@.take(input.vertex_clues@.len() as int) == input.vertex_clues@);
        }

        let mut has_compass_clue = false;
        let mut has_palisade_clue = false;
        let mut i: usize = 0;
        while i < input.cell_clues.len()
            invariant
                i <= input.cell_clues@.len(),
                has_compass_clue == exists|k: int| 0 <= k < i && (#[trigger] input.cell_clues@[k]) is Compass,
                has_palisade_clue == exists|k: int| 0 <= k < i && (#[trigger] input.cell_clues@[k]) is Palisade,
            decreases input.cell_clues@.len() - i,
        {
            match input.cell_clues[i] {
                CellClue::Compass { .. } => {
                    has_compass_clue = true;
                },
                CellClue::Palisade { .. } => {
                    has_palisade_clue = true;
                },
                _ => {},
            }
            i = i + 1;
        }

        let mut edges: Vec<EdgeState> = Vec::new();
        let mut is_pre_cut: Vec<bool> = Vec::new();
        let mut visited_buf: Vec<bool> = Vec::new();
        let mut k: usize = 0;
        while k < n
            invariant
                k <= n,
                edges@ == Seq::new(k as nat, |x: int| EdgeState::Unknown),
                is_pre_cut@ == Seq::new(k as nat, |x: int| false),
            decreases n - k,
        {
            edges.push(EdgeState::Unknown);
            is_pre_cut.push(false);
            k = k + 1;
        }
        let mut k: usize = 0;
        while k < nc
            invariant
                k <= nc,
                visited_buf@ == Seq::new(k as nat, |x: int| false),
            decreases nc - k,
        {
            visited_buf.push(false);
            k = k + 1;
        }

        let pre_cut = input.pre_cut;
        let mut solver = Solver {
            grid: input.grid,
            cell_clues: input.cell_clues,
            edge_clues: input.edge_clues,
            vertex_clues: input.vertex_clues,
            rules: input.rules,
            edges,
            changed: Vec::new(),
            is_pre_cut,
            eff_min_area: input.min_area,
            eff_max_area: input.max_area,
            total_cells: 0,
            curr_unknown: n,
            node_count: 0,
            curr_comp_id: Vec::new(),
            curr_comp_sz: Vec::new(),
            curr_target_area: Vec::new(),
            q_buf: Vec::new(),
            visited_buf,
            can_grow_buf: Vec::new(),
            comp_cells: Vec::new(),
            in_probing: false,
            has_compass_clue,
            has_palisade_clue,
            prop: PropagationState::new(diff_clues, nc),
            growth_edge_count: Vec::new(),
            watchtower_vertices,
            cell_clues_indexed,
            deadline,
            timed_out: false,
            build_progress: false,
            pre_marked: Ghost(0),
        };
        proof {
            assert(solver.edges@ =~= Seq::new(n as nat, |x: int| EdgeState::Unknown));
            assert(trail_consistent(solver.edges@, solver.changed@));
        }
        let ghost s0 = solver;
        let mut j: usize = 0;
        while j < pre_cut.len()
            invariant
                j <= pre_cut@.len(),
                n == solver.grid.n_edges(),
                solver.trail_ok(),
                solver.same_context(&s0),
                solver.curr_unknown == n,
                forall|i: int| 0 <= i < pre_cut@.len() ==> (#[trigger] pre_cut@[i]) < n,
                forall|e: int|
                    0 <= e < n ==> (#[trigger] solver.is_pre_cut@[e]) == pre_cut@.take(
                        j as int,
                    ).contains(e as usize),
                forall|e: int|
                    0 <= e < n ==> #[trigger] solver.edges@[e] == if pre_cut@.take(
                        j as int,
                    ).contains(e as usize) {
                        EdgeState::Cut
                    } else {
                        EdgeState::Unknown
                    },
            decreases pre_cut@.len() - j,
        {
            let e = pre_cut[j];
            let ghost before = solver;
            solver.mark_pre_cut(e);
            proof {
                let t0 = pre_cut@.take(j as int);
                let t1 = pre_cut@.take(j + 1);
                assert(t1 == t0.push(e));
                assert forall|x: int|
                    #![trigger solver.is_pre_cut@[x]]
                    #![trigger solver.edges@[x]]
                    0 <= x < n implies solver.is_pre_cut@[x] == t1.contains(x as usize) && solver.edges@[x] == if t1.contains(x as usize) {
                    EdgeState::Cut
                } else {
                    EdgeState::Unknown
                } by {
                    if x == e {
                        assert(t1[j as int] == e);
                    } else {
                        assert(before.is_pre_cut@[x] == t0.contains(x as usize));
                        assert(before.edges@[x] == solver.edges@[x]);
                        if t1.contains(x as usize) {
                            let q = choose|q: int| 0 <= q < t1.len() && t1[q] == x as usize;
                            assert(t0[q] == x as usize);
                        }
                        if t0.contains(x as usize) {
                            let q = choose|q: int| 0 <= q < t0.len() && t0[q] == x as usize;
                            assert(t1[q] == x as usize);
                        }
                    }
                }
            }
            j = j + 1;
        }
        proof {
            assert(pre_cut@.take(pre_cut@.len() as int) == pre_cut@);
        }
        solver
    }

    /// Whether to try `Cut` before `Uncut` on edge `e`: not when a component
    /// on either side is still below its target area.
    pub fn prefer_cut_first(&self, e: EdgeId) -> (r: bool)
        requires
            self.grid.wf(),
            e < self.grid.n_edges(),
            self.comps_ok(),
        ensures
            r == self.spec_prefer_cut_first(e as int),
    {
        if self.curr_comp_id.len() == 0 {
            return true;
        }
        let (c1, c2) = self.grid.edge_cells(e);
        if !self.grid.cell_exists[c1] || !self.grid.cell_exists[c2] {
            return true;
        }
        proof {
            lemma_wf_bounds(self.grid);
        }
        let ci1 = self.curr_comp_id[c1];
        let ci2 = self.curr_comp_id[c2];
        let sz1 = self.curr_comp_sz[ci1];
        let sz2 = self.curr_comp_sz[ci2];
        if let Some(target) = self.curr_target_area[ci1] {
            if sz1 < target {
                return false;
            }
        }
        if let Some(target) = self.curr_target_area[ci2] {
            if sz2 < target {
                return false;
            }
        }
        true
    }

    /// The branching edge.  Without component information: the first
    /// undecided edge, scored 0.  Otherwise the first candidate of highest
    /// score, where the scan stops at the first running best of 200 or more.
    pub fn select_edge(&mut self) -> (r: Option<(EdgeId, i32)>)
        requires
            old(self).grid.wf(),
            old(self).edges@.len() == old(self).grid.n_edges(),
            old(self).comps_ok(),
        ensures
            *final(self) == *old(self),
            final(self).curr_comp_id@.len() == 0 ==> match r {
                None => forall|e: int|
                    0 <= e < final(self).grid.n_edges() ==> #[trigger] final(self).edges@[e]
                        != EdgeState::Unknown,
                Some((e, sc)) => {
                    &&& e < final(self).grid.n_edges()
                    &&& sc == 0
                    &&& final(self).edges@[e as int] == EdgeState::Unknown
                    &&& forall|x: int| 0 <= x < e ==> #[trigger] final(self).edges@[x] != EdgeState::Unknown
                },
            },
            final(self).curr_comp_id@.len() != 0 ==> match r {
                None => forall|e: int|
                    0 <= e < final(self).grid.n_edges() ==> !#[trigger] final(self).selectable(e),
                Some((e, sc)) => {
                    &&& e < final(self).grid.n_edges()
                    &&& final(self).selectable(e as int)
                    &&& sc == final(self).edge_score(e as int)
                    &&& forall|x: int|
                        0 <= x < e && #[trigger] final(self).selectable(x) ==> final(self).edge_score(x) < sc
                            && final(self).edge_score(x) < 200
                    &&& sc >= 200 || forall|x: int|
                        0 <= x < final(self).grid.n_edges() && #[trigger] final(self).selectable(x)
                            ==> final(self).edge_score(x) <= sc
                },
            },
    {
        broadcast use vstd::std_specs::hash::group_hash_axioms;

        let num_edges = self.grid.num_edges();
        if self.curr_comp_id.len() == 0 {
            let mut e: usize = 0;
            while e < num_edges
                invariant
                    num_edges == self.grid.n_edges(),
                    self.edges@.len() == num_edges,
                    self.curr_comp_id@.len() == 0,
                    *self == *old(self),
                    e <= num_edges,
                    forall|x: int| 0 <= x < e ==> #[trigger] self.edges@[x] != EdgeState::Unknown,
                decreases num_edges - e,
            {
                if self.edges[e] == EdgeState::Unknown {
                    return Some((e, 0));
                }
                e = e + 1;
            }
            return None;
        }
        proof {
            lemma_wf_bounds(self.grid);
        }
        let mut best_e: Option<(EdgeId, i32)> = None;
        let mut e: usize = 0;
        while e < num_edges
            invariant
                num_edges == self.grid.n_edges(),
                self.grid.wf(),
                self.edges@.len() == num_edges,
                self.comps_ok(),
                self.curr_comp_id@.len() != 0,
                *self == *old(self),
                e <= num_edges,
                match best_e {
                    None => forall|x: int| 0 <= x < e ==> !#[trigger] self.selectable(x),
                    Some((b, sc)) => {
                        &&& b < e
                        &&& self.selectable(b as int)
                        &&& sc == self.edge_score(b as int)
                        &&& sc < 200
                        &&& forall|x: int|
                            0 <= x < b && #[trigger] self.selectable(x) ==> self.edge_score(x) < sc
                        &&& forall|x: int|
                            0 <= x < e && #[trigger] self.selectable(x) ==> self.edge_score(x) <= sc
                    },
                },
            decreases num_edges - e,
        {
            if self.edges[e] == EdgeState::Unknown {
                let (c1, c2) = self.grid.edge_cells(e);
                if self.grid.cell_exists[c1] && self.grid.cell_exists[c2] {
                    let ci1 = self.curr_comp_id[c1];
                    let ci2 = self.curr_comp_id[c2];
                    let sz1 = self.curr_comp_sz[ci1];
                    let sz2 = self.curr_comp_sz[ci2];
                    let mut score: i32 = 0;
                    if let Some(target) = self.curr_target_area[ci1] {
                        score = score + if sz1 < target {
                            100
                        } else {
                            1
                        };
                    } else {
                        score = score + 10;
                    }
                    if let Some(target) = self.curr_target_area[ci2] {
                        score = score + if sz2 < target {
                            100
                        } else {
                            1
                        };
                    } else {
                        score = score + 10;
                    }
                    if ci1 < self.growth_edge_count.len() && self.growth_edge_count[ci1] == 1
                        && self.curr_target_area[ci1].is_some() {
                        score = score + 75;
                    }
                    if ci2 < self.growth_edge_count.len() && self.growth_edge_count[ci2] == 1
                        && self.curr_target_area[ci2].is_some() {
                        score = score + 75;
                    }
                    let sealed1 = self.is_sealed(ci1);
                    let sealed2 = self.is_sealed(ci2);
                    if sealed1 != sealed2 {
                        let other_ci = if sealed1 {
                            ci2
                        } else {
                            ci1
                        };
                        if self.curr_target_area[other_ci].is_some() {
                            score = score + 50;
                        }
                    }
                    if !self.watchtower_vertices.is_empty() {
                        let (v1, v2) = self.grid.edge_vertices(e);
                        if self.watchtower_vertices.contains(&v1) || self.watchtower_vertices.contains(
                            &v2,
                        ) {
                            score = score + 25;
                        }
                    }
                    proof {
                        assert(score == self.edge_score(e as int));
                    }
                    let better = match best_e {
                        None => true,
                        Some((_, sc)) => score > sc,
                    };
                    if better {
                        best_e = Some((e, score));
                        if score >= 200 {
                            return best_e;
                        }
                    }
                }
            }
            e = e + 1;
        }
        best_e
    }

    /// Label each existing cell with its piece: the pieces are the classes of
    /// cells joined through edges that are uncut (`uncut_only`) or not cut,
    /// numbered from 0 in order of their smallest cell.  Missing cells get no
    /// label.  The second result is the number of pieces.
    pub fn label_pieces(&self, uncut_only: bool) -> (r: (Vec<Option<usize>>, usize))
        requires
            self.grid.wf(),
            self.edges@.len() == self.grid.n_edges(),
        ensures
            r.0@.len() == self.grid.n_cells(),
            r.1 <= self.grid.n_cells(),
            forall|c: int|
                0 <= c < self.grid.n_cells() ==> (#[trigger] r.0@[c]) is Some
                    == self.grid.cell_exists@[c],
            forall|c: int| 0 <= c < self.grid.n_cells() && (#[trigger] r.0@[c]) is Some ==> r.0@[c].unwrap() < r.1,
            forall|e: int|
                0 <= e < self.grid.n_edges() && #[trigger] self.joins_by(e, uncut_only) ==> r.0@[self.grid.spec_edge_cells(e).0]
                    == r.0@[self.grid.spec_edge_cells(e).1],
            forall|c: int, j: int|
                0 <= c < self.grid.n_cells() && 0 <= j && r.0@[c] is Some && j
                    <= r.0@[c].unwrap() ==> #[trigger] label_seen(r.0@, c, j),
            forall|j: int| 0 <= j < r.1 ==> #[trigger] label_seen(r.0@, self.grid.n_cells() - 1, j),
    {
        let n = self.grid.num_cells();
        proof {
            lemma_wf_bounds(self.grid);
        }
        let mut comp: Vec<usize> = Vec::new();
        let mut k: usize = 0;
        while k < n
            invariant
                k <= n,
                comp@ == Seq::new(k as nat, |x: int| usize::MAX),
            decreases n - k,
        {
            comp.push(usize::MAX);
            k = k + 1;
        }
        proof {
            assert forall|e: int| 0 <= e < self.grid.n_edges() && #[trigger] self.joins_by(e, uncut_only) implies comp@[self.grid.spec_edge_cells(e).0]
                == comp@[self.grid.spec_edge_cells(e).1] by {
                lemma_edge_cells_between(self.grid, e);
            }
        }
        let mut num_pieces: usize = 0;
        let ghost mut seeds: Seq<int> = Seq::empty();
        let mut c: usize = 0;
        while c < n
            invariant
                n == self.grid.n_cells(),
                self.grid.wf(),
                self.grid.cell_exists@.len() == n,
                self.edges@.len() == self.grid.n_edges(),
                c <= n,
                comp@.len() == n,
                num_pieces <= c,
                seeds.len() == num_pieces,
                forall|j: int|
                    0 <= j < num_pieces ==> 0 <= #[trigger] seeds[j] < c && comp@[seeds[j]]
                        == j as usize,
                forall|j: int, i: int| 0 <= j < i < num_pieces ==> #[trigger] seeds[j] < #[trigger] seeds[i],
                forall|x: int|
                    0 <= x < n && #[trigger] comp@[x] != usize::MAX ==> self.grid.cell_exists@[x]
                        && comp@[x] < num_pieces && seeds[comp@[x] as int] <= x,
                forall|x: int|
                    0 <= x < c && #[trigger] self.grid.cell_exists@[x] ==> comp@[x] != usize::MAX,
                forall|e: int|
                    0 <= e < self.grid.n_edges() && #[trigger] self.joins_by(e, uncut_only) ==> comp@[self.grid.spec_edge_cells(e).0]
                        == comp@[self.grid.spec_edge_cells(e).1],
            decreases n - c,
        {
            if !self.grid.cell_exists[c] || comp[c] != usize::MAX {
                c = c + 1;
                continue;
            }
            let ghost comp0 = comp@;
            comp.set(c, num_pieces);
            let mut q: Vec<usize> = Vec::new();
            q.push(c);
            proof {
                seeds = seeds.push(c as int);
                assert(q@.subrange(0, 1) == seq![c]);
                assert forall|e: int|
                    0 <= e < self.grid.n_edges() && #[trigger] self.joins_by(e, uncut_only) implies self.closed_on(comp@, num_pieces, q@.subrange(0, 1), e, usize::MAX) by {
                    lemma_edge_cells_between(self.grid, e);
                    let (a, b) = self.grid.spec_edge_cells(e);
                    assert(comp0[a] != usize::MAX ==> comp0[a] < num_pieces);
                    lemma_closed_seed(comp0, comp@, num_pieces, c as int, a, b);
                }
            }
            let mut head: usize = 0;
            while head < q.len()
                invariant
                    n == self.grid.n_cells(),
                    self.grid.wf(),
                    self.grid.cell_exists@.len() == n,
                    self.edges@.len() == self.grid.n_edges(),
                    c < n,
                    num_pieces <= c,
                    comp@.len() == n,
                    seeds.len() == num_pieces + 1,
                    seeds[num_pieces as int] == c,
                    forall|j: int|
                        0 <= j <= num_pieces ==> 0 <= #[trigger] seeds[j] <= c && comp@[seeds[j]]
                            == j as usize,
                    forall|j: int, i: int| 0 <= j < i <= num_pieces ==> #[trigger] seeds[j] < #[trigger] seeds[i],
                    head <= q@.len(),
                    q@.no_duplicates(),
                    forall|i: int|
                        0 <= i < q@.len() ==> #[trigger] q@[i] < n && comp@[q@[i] as int]
                            == num_pieces,
                    forall|x: int|
                        0 <= x < n && #[trigger] comp@[x] != usize::MAX ==> self.grid.cell_exists@[x]
                            && comp@[x] <= num_pieces && seeds[comp@[x] as int] <= x,
                    forall|x: int|
                        0 <= x < c && #[trigger] self.grid.cell_exists@[x] ==> comp@[x] != usize::MAX,
                    forall|e: int|
                        0 <= e < self.grid.n_edges() && #[trigger] self.joins_by(e, uncut_only) ==> self.closed_on(comp@, num_pieces, q@.subrange(head as int, q@.len() as int), e, usize::MAX),
                decreases n - q@.len(), q@.len() - head,
            {
                proof {
                    lemma_distinct_below(q@, n as int);
                }
                let cur = q[head];
                let ghost pend_old = q@.subrange(head as int, q@.len() as int);
                head = head + 1;
                proof {
                    let pend = q@.subrange(head as int, q@.len() as int);
                    assert(pend == pend_old.subrange(1, pend_old.len() as int));
                    assert forall|e: int|
                        0 <= e < self.grid.n_edges() && #[trigger] self.joins_by(e, uncut_only) implies self.closed_on(comp@, num_pieces, pend, e, cur) by {
                        assert(self.closed_on(comp@, num_pieces, pend_old, e, usize::MAX));
                        lemma_edge_cells_between(self.grid, e);
                        let (a, b) = self.grid.spec_edge_cells(e);
                        lemma_closed_pop(comp@, num_pieces, pend_old, pend, cur, a, b);
                    }
                }
                let ce = self.grid.cell_edges(cur);
                proof {
                    assert forall|i: int| 0 <= i < 4 && (#[trigger] ce[i]).is_some() implies self.grid.spec_edge_cells(ce[i].unwrap() as int).0 == cur || self.grid.spec_edge_cells(ce[i].unwrap() as int).1 == cur by {
                        lemma_cell_edge_sides(self.grid, cur as int, i);
                    }
                }
                let ghost qlen0 = q@.len();
                let mut k: usize = 0;
                while k < 4
                    invariant
                        n == self.grid.n_cells(),
                        self.grid.wf(),
                        self.grid.cell_exists@.len() == n,
                        self.edges@.len() == self.grid.n_edges(),
                        c < n,
                        num_pieces <= c,
                        cur < n,
                        ce == self.grid.spec_cell_edges(cur as int),
                        forall|i: int| 0 <= i < 4 && (#[trigger] ce[i]).is_some() ==> ce[i].unwrap() < self.grid.n_edges(),
                        comp@.len() == n,
                        comp@[cur as int] == num_pieces,
                        seeds.len() == num_pieces + 1,
                        seeds[num_pieces as int] == c,
                        forall|j: int|
                            0 <= j <= num_pieces ==> 0 <= #[trigger] seeds[j] <= c && comp@[seeds[j]]
                                == j as usize,
                        forall|j: int, i: int| 0 <= j < i <= num_pieces ==> #[trigger] seeds[j] < #[trigger] seeds[i],
                        0 < head <= q@.len(),
                        q@.len() >= qlen0,
                        q@.no_duplicates(),
                        k <= 4,
                        forall|i: int| 0 <= i < 4 && (#[trigger] ce[i]).is_some() ==> self.grid.spec_edge_cells(ce[i].unwrap() as int).0 == cur || self.grid.spec_edge_cells(ce[i].unwrap() as int).1 == cur,
                        forall|i: int|
                            0 <= i < q@.len() ==> #[trigger] q@[i] < n && comp@[q@[i] as int]
                                == num_pieces,
                        forall|x: int|
                            0 <= x < n && #[trigger] comp@[x] != usize::MAX ==> self.grid.cell_exists@[x]
                                && comp@[x] <= num_pieces && seeds[comp@[x] as int] <= x,
                        forall|x: int|
                            0 <= x < c && #[trigger] self.grid.cell_exists@[x] ==> comp@[x] != usize::MAX,
                        forall|i: int|
                            0 <= i < k && (#[trigger] ce[i]).is_some() && self.joins_by(ce[i].unwrap() as int, uncut_only) ==> comp@[self.grid.spec_edge_cells(ce[i].unwrap() as int).0] == num_pieces && comp@[self.grid.spec_edge_cells(ce[i].unwrap() as int).1] == num_pieces,
                        forall|e: int|
                            0 <= e < self.grid.n_edges() && #[trigger] self.joins_by(e, uncut_only) ==> self.closed_on(comp@, num_pieces, q@.subrange(head as int, q@.len() as int), e, cur),
                    decreases 4 - k,
                {
                    let ghost comp_k = comp@;
                    if let Some(eid) = ce[k] {
                        proof {
                            lemma_cell_edge_sides(self.grid, cur as int, k as int);
                            lemma_edge_cells_between(self.grid, eid as int);
                            assert(comp@[cur as int] != usize::MAX);
                        }
                        let (c1, c2) = self.grid.edge_cells(eid);
                        let other = if c1 == cur {
                            c2
                        } else {
                            c1
                        };
                        let open = if uncut_only {
                            self.edges[eid] == EdgeState::Uncut
                        } else {
                            self.edges[eid] != EdgeState::Cut
                        };
                        if self.grid.cell_exists[other] && comp[other] == usize::MAX && open {
                            let ghost q0 = q@;
                            let ghost comp0 = comp@;
                            proof {
                                assert(self.joins_by(eid as int, uncut_only));
                                if q0.contains(other) {
                                    let w = choose|w: int| 0 <= w < q0.len() && q0[w] == other;
                                    assert(comp0[q0[w] as int] == num_pieces);
                                }
                            }
                            comp.set(other, num_pieces);
                            q.push(other);
                            proof {
                                let pend0 = q0.subrange(head as int, q0.len() as int);
                                let pend1 = q@.subrange(head as int, q@.len() as int);
                                assert(pend1 == pend0.push(other));
                                assert forall|i: int, j: int| 0 <= i < q@.len() && 0 <= j < q@.len() && i != j implies q@[i] != q@[j] by {
                                    if j == q@.len() - 1 {
                                        assert(comp0[q0[i] as int] == num_pieces);
                                    } else if i == q@.len() - 1 {
                                        assert(comp0[q0[j] as int] == num_pieces);
                                    }
                                }
                                assert forall|e: int|
                                    0 <= e < self.grid.n_edges() && #[trigger] self.joins_by(e, uncut_only) implies self.closed_on(comp@, num_pieces, pend1, e, cur) by {
                                    lemma_edge_cells_between(self.grid, e);
                                    assert(self.closed_on(comp0, num_pieces, pend0, e, cur));
                                    let (a, b) = self.grid.spec_edge_cells(e);
                                    lemma_closed_push(comp0, comp@, num_pieces, pend0, other as int, cur, a, b);
                                }
                            }
                        } else {
                            proof {
                                if self.joins_by(eid as int, uncut_only) {
                                    assert(self.closed_on(comp@, num_pieces, q@.subrange(head as int, q@.len() as int), eid as int, cur));
                                    assert(comp@[other as int] == num_pieces);
                                }
                            }
                        }
                        proof {
                            assert(c1 == cur || c2 == cur);
                            if self.joins_by(eid as int, uncut_only) {
                                assert(comp@[other as int] == num_pieces);
                                assert(comp@[cur as int] == num_pieces);
                            }
                        }
                    }
                    proof {
                        assert forall|i: int|
                            0 <= i <= k && (#[trigger] ce[i]).is_some() && self.joins_by(ce[i].unwrap() as int, uncut_only) implies comp@[self.grid.spec_edge_cells(ce[i].unwrap() as int).0] == num_pieces && comp@[self.grid.spec_edge_cells(ce[i].unwrap() as int).1] == num_pieces by {
                            lemma_edge_cells_between(self.grid, ce[i].unwrap() as int);
                            if i < k {
                                let (a, b) = self.grid.spec_edge_cells(ce[i].unwrap() as int);
                                assert(comp_k[a] == num_pieces && comp_k[b] == num_pieces);
                                assert(forall|x: int| 0 <= x < n && comp_k[x] != usize::MAX ==> comp@[x] == comp_k[x]);
                            }
                        }
                    }
                    k = k + 1;
                }
                proof {
                    lemma_wf_bounds(self.grid);
                    assert forall|e: int|
                        0 <= e < self.grid.n_edges() && #[trigger] self.joins_by(e, uncut_only) implies self.closed_on(comp@, num_pieces, q@.subrange(head as int, q@.len() as int), e, usize::MAX) by {
                        lemma_edge_in_cell_edges(self.grid, e);
                        lemma_edge_cells_between(self.grid, e);
                        assert(self.closed_on(comp@, num_pieces, q@.subrange(head as int, q@.len() as int), e, cur));
                        let (a, b) = self.grid.spec_edge_cells(e);
                        if a == cur {
                            let i: int = if e < self.grid.n_h() { 1 } else { 3 };
                            assert(ce[i] == Some(e as usize));
                            assert(ce[i].unwrap() as int == e);
                            assert(comp@[a] == comp@[b]);
                        }
                        if b == cur {
                            let i: int = if e < self.grid.n_h() { 0 } else { 2 };
                            assert(ce[i] == Some(e as usize));
                            assert(ce[i].unwrap() as int == e);
                            assert(comp@[a] == comp@[b]);
                        }
                        lemma_closed_finish(comp@, num_pieces, q@.subrange(head as int, q@.len() as int), cur, a, b);
                    }
                    lemma_distinct_below(q@, n as int);
                }
            }
            proof {
                let pend = q@.subrange(head as int, q@.len() as int);
                assert(pend.len() == 0);
                assert forall|e: int|
                    0 <= e < self.grid.n_edges() && #[trigger] self.joins_by(e, uncut_only) implies comp@[self.grid.spec_edge_cells(e).0]
                        == comp@[self.grid.spec_edge_cells(e).1] by {
                    lemma_edge_cells_between(self.grid, e);
                    assert(self.closed_on(comp@, num_pieces, pend, e, usize::MAX));
                    let (a, b) = self.grid.spec_edge_cells(e);
                    assert(pend == Seq::<usize>::empty());
                    assert(comp@[a] != usize::MAX ==> comp@[a] <= num_pieces);
                    assert(comp@[b] != usize::MAX ==> comp@[b] <= num_pieces);
                    lemma_closed_done(comp@, num_pieces, a, b);
                }
            }
            num_pieces = num_pieces + 1;
            c = c + 1;
        }
        let mut region_of: Vec<Option<usize>> = Vec::new();
        let mut c: usize = 0;
        while c < n
            invariant
                n == self.grid.n_cells(),
                self.grid.cell_exists@.len() == n,
                c <= n,
                comp@.len() == n,
                region_of@.len() == c,
                forall|x: int| 0 <= x < c ==> #[trigger] region_of@[x] == if self.grid.cell_exists@[x] {
                    Some(comp@[x])
                } else {
                    None
                },
            decreases n - c,
        {
            if self.grid.cell_exists[c] {
                region_of.push(Some(comp[c]));
            } else {
                region_of.push(None);
            }
            c = c + 1;
        }
        proof {
            assert forall|e: int|
                0 <= e < self.grid.n_edges() && #[trigger] self.joins_by(e, uncut_only) implies region_of@[self.grid.spec_edge_cells(e).0]
                    == region_of@[self.grid.spec_edge_cells(e).1] by {
                lemma_edge_cells_between(self.grid, e);
            }
            assert forall|x: int, j: int|
                0 <= x < n && 0 <= j && region_of@[x] is Some && j
                    <= region_of@[x].unwrap() implies #[trigger] label_seen(region_of@, x, j) by {
                let k = comp@[x] as int;
                assert(comp@[x] != usize::MAX);
                let d = seeds[j];
                if j < k {
                    assert(seeds[j] < seeds[k]);
                }
                assert(region_of@[d] == Some(j as usize));
            }
            assert forall|j: int| 0 <= j < num_pieces implies #[trigger] label_seen(region_of@, n - 1, j) by {
                let d = seeds[j];
                assert(comp@[d] == j as usize);
                assert(region_of@[d] == Some(j as usize));
            }
        }
        (region_of, num_pieces)
    }

    /// Label each existing cell with its piece: the pieces are the classes of
    /// cells joined through edges that are not cut, numbered from 0 in order
    /// of their smallest cell.  Missing cells get no label.
    pub fn extract_regions(&self) -> (region_of: Vec<Option<usize>>)
        requires
            self.grid.wf(),
            self.edges@.len() == self.grid.n_edges(),
        ensures
            region_of@.len() == self.grid.n_cells(),
            forall|c: int|
                0 <= c < self.grid.n_cells() ==> (#[trigger] region_of@[c]) is Some
                    == self.grid.cell_exists@[c],
            forall|e: int|
                0 <= e < self.grid.n_edges() && #[trigger] self.joins(e) ==> region_of@[self.grid.spec_edge_cells(e).0]
                    == region_of@[self.grid.spec_edge_cells(e).1],
            forall|c: int, j: int|
                0 <= c < self.grid.n_cells() && 0 <= j && region_of@[c] is Some && j
                    <= region_of@[c].unwrap() ==> #[trigger] label_seen(region_of@, c, j),
    {
        let (region_of, _num) = self.label_pieces(false);
        proof {
            assert forall|e: int|
                0 <= e < self.grid.n_edges() && #[trigger] self.joins(e) implies region_of@[self.grid.spec_edge_cells(e).0]
                    == region_of@[self.grid.spec_edge_cells(e).1] by {
                assert(self.joins_by(e, false));
            }
        }
        region_of
    }

    pub fn snapshot(&self) -> (s: Snapshot)
        ensures
            s.edges == self.changed@.len(),
    {
        Snapshot { edges: self.changed.len() }
    }

    /// Undo every trail entry above the snapshot.
    pub fn restore(&mut self, snap: Snapshot)
        requires
            old(self).trail_ok(),
            old(self).pre_marked@ <= snap.edges <= old(self).changed@.len(),
        ensures
            final(self).trail_ok(),
            final(self).same_context(&*old(self)),
            final(self).is_pre_cut == old(self).is_pre_cut,
            final(self).pre_marked == old(self).pre_marked,
            final(self).changed@ == old(self).changed@.take(snap.edges as int),
            final(self).edges@ == restored(old(self).edges@, old(self).changed@, snap.edges as int),
    {
        let ghost e0 = self.edges@;
        let ghost t0 = self.changed@;
        while self.changed.len() > snap.edges
            invariant
                self.trail_ok(),
                self.same_context(&*old(self)),
                self.is_pre_cut == old(self).is_pre_cut,
                self.pre_marked == old(self).pre_marked,
                self.pre_marked@ <= snap.edges <= self.changed@.len() <= t0.len(),
                self.changed@ == t0.take(self.changed@.len() as int),
                self.edges@ == restored(e0, t0, self.changed@.len() as int),
                trail_consistent(e0, t0),
                e0.len() == self.edges@.len(),
            decreases self.changed@.len(),
        {
            let ghost len = self.changed@.len();
            let ghost t = self.changed@;
            let ghost cu = self.curr_unknown;
            let n_edges = self.edges.len();
            let ghost ne = self.edges@.len();
            assert(cu + len == ne + self.pre_marked@);
            assert(len > self.pre_marked@);
            assert(cu < ne);
            let (e, old_state) = self.changed.pop().unwrap();
            proof {
                assert(t[len - 1] == (e, old_state));
                assert(old_state == EdgeState::Unknown);
                assert(self.curr_unknown == cu);
                assert(self.edges@.len() == ne);
            }
            if self.edges[e] != EdgeState::Unknown && old_state == EdgeState::Unknown {
                assert(self.curr_unknown < n_edges);
                self.curr_unknown = self.curr_unknown + 1;
            }
            self.edges.set(e, old_state);
            proof {
                let t2 = self.changed@;
                assert(t2 == t.take(len - 1));
                assert(t2 == t0.take(len - 1));
                assert(self.edges@ =~= restored(e0, t0, len - 1)) by {
                    assert forall|x: int| 0 <= x < self.edges@.len() implies #[trigger] self.edges@[x]
                        == restored(e0, t0, len - 1)[x] by {
                        if x == e {
                            assert(t0[len - 1].0 == x);
                        } else {
                            if exists|i: int| len - 1 <= i < t0.len() && (#[trigger] t0[i]).0 == x {
                                let i = choose|i: int| len - 1 <= i < t0.len() && (#[trigger] t0[i]).0 == x;
                                assert(i != len - 1);
                            }
                        }
                    }
                }
                assert forall|i: int, j: int|
                    0 <= i < t2.len() && 0 <= j < t2.len() && i != j implies (#[trigger] t2[i]).0 != (#[trigger] t2[j]).0 by {
                    assert(t2[i] == t[i] && t2[j] == t[j]);
                }
                assert forall|i: int| 0 <= i < t2.len() implies (#[trigger] t2[i]).0 < self.edges@.len() && t2[i].1
                    == EdgeState::Unknown && self.edges@[t2[i].0 as int] != EdgeState::Unknown by {
                    assert(t2[i] == t[i]);
                    assert(t[i].0 != t[len - 1].0);
                }
                assert forall|x: int|
                    0 <= x < self.edges@.len() && #[trigger] self.edges@[x] != EdgeState::Unknown implies exists|i: int|
                        0 <= i < t2.len() && (#[trigger] t2[i]).0 == x by {
                    let i = choose|i: int| 0 <= i < t.len() && (#[trigger] t[i]).0 == x;
                    assert(i != len - 1);
                    assert(t2[i] == t[i]);
                }
            }
        }
        proof {
            assert(self.changed@.len() == snap.edges);
        }
    }

    /// Restoring a snapshot gives back the state it was taken in: `s0` is
    /// the state when `snap` was taken, `s1` a later state reached by setting
    /// edges (its trail extends that of `s0`, edges decided in `s0` keep
    /// their state, no pre-cut edge was marked since), and `s2` what
    /// `restore(snap)` leaves from `s1`.  Then `s2` has the edges, trail and
    /// unknown count of `s0`.
    pub proof fn lemma_restore_snapshot(s0: Solver, s1: Solver, s2: Solver, snap: Snapshot)
        requires
            s0.trail_ok(),
            s1.trail_ok(),
            s1.grid == s0.grid,
            snap.edges == s0.changed@.len(),
            s1.changed@.len() >= snap.edges,
            s1.changed@.take(snap.edges as int) == s0.changed@,
            s1.pre_marked == s0.pre_marked,
            forall|e: int| 0 <= e < s0.edges@.len() && s0.edges@[e] != EdgeState::Unknown ==> #[trigger] s1.edges@[e] == s0.edges@[e],
            s2.trail_ok(),
            s2.same_context(&s1),
            s2.pre_marked == s1.pre_marked,
            s2.changed@ == s1.changed@.take(snap.edges as int),
            s2.edges@ == restored(s1.edges@, s1.changed@, snap.edges as int),
        ensures
            s2.edges@ == s0.edges@,
            s2.changed@ == s0.changed@,
            s2.curr_unknown == s0.curr_unknown,
    {
        let k = snap.edges as int;
        let t0 = s0.changed@;
        let t1 = s1.changed@;
        assert forall|e: int| 0 <= e < s0.edges@.len() implies #[trigger] s2.edges@[e] == s0.edges@[e] by {
            if exists|i: int| k <= i < t1.len() && (#[trigger] t1[i]).0 == e {
                let i = choose|i: int| k <= i < t1.len() && (#[trigger] t1[i]).0 == e;
                if s0.edges@[e] != EdgeState::Unknown {
                    let j = choose|j: int| 0 <= j < t0.len() && (#[trigger] t0[j]).0 == e;
                    assert(t1.take(k)[j] == t1[j]);
                    assert(t1[j].0 == e);
                }
            } else {
                if s0.edges@[e] == EdgeState::Unknown && s1.edges@[e] != EdgeState::Unknown {
                    let i = choose|i: int| 0 <= i < t1.len() && (#[trigger] t1[i]).0 == e;
                    assert(i < k);
                    assert(t1.take(k)[i] == t1[i]);
                    assert(t0[i].0 == e);
                }
            }
        }
        assert(s2.edges@ =~= s0.edges@);
    }

    pub fn is_sealed(&self, ci: usize) -> (r: bool)
        ensures
            r == (ci < self.can_grow_buf@.len() && !self.can_grow_buf@[ci as int]),
    {
        ci < self.can_grow_buf.len() && !self.can_grow_buf[ci]
    }

    pub fn is_growing(&self, ci: usize) -> (r: bool)
        ensures
            r == (ci < self.can_grow_buf@.len() && self.can_grow_buf@[ci as int]),
    {
        ci < self.can_grow_buf.len() && self.can_grow_buf[ci]
    }

    /// Whether the deadline has passed; records the timeout when it has.
    pub fn check_deadline(&mut self) -> (r: bool)
        ensures
            r ==> final(self).timed_out,
            !r ==> final(self).timed_out == old(self).timed_out,
            final(self).grid == old(self).grid,
            final(self).edges == old(self).edges,
            final(self).changed == old(self).changed,
            final(self).curr_unknown == old(self).curr_unknown,
            final(self).pre_marked == old(self).pre_marked,
            final(self).is_pre_cut == old(self).is_pre_cut,
    {
        if deadline_reached(&self.deadline) {
            self.timed_out = true;
            true
        } else {
            false
        }
    }
}

} // verus!
