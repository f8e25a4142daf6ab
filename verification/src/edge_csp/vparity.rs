//! Watchtower edge parity.  Some watchtower clues fix the parity of the cut
//! count among the internal edges at their grid point; these parities are
//! combined in a union-find with parity (each class of edges knows the cut
//! relation between any two members) to decide further edges.

use vstd::prelude::*;
use crate::edge_csp::grid::lemma_wf_bounds;
use crate::edge_csp::palisade::{completes, decided_some};
use crate::edge_csp::parity_uf::{ParityUF, lemma_xor_bits};
use crate::edge_csp::prop::count_in_state;
use crate::edge_csp::solver::Solver;
use crate::edge_csp::types::{EdgeId, EdgeState, VertexClue};

verus! {

/// 1 for a cut edge, 0 otherwise.
pub open spec fn cut_bit(s: EdgeState) -> int {
    if s == EdgeState::Cut {
        1
    } else {
        0
    }
}

/// Sum of the known bits (0 or 1; 2 is unknown) of `ev` over `es`.
pub open spec fn known_sum(ev: Seq<u8>, es: Seq<EdgeId>) -> int
    decreases es.len(),
{
    if es.len() == 0 {
        0
    } else {
        known_sum(ev, es.drop_last()) + if ev[es.last() as int] <= 1 {
            ev[es.last() as int] as int
        } else {
            0
        }
    }
}

/// The edges of `es` whose bit is unknown in `ev`, in order.
pub open spec fn unknowns(ev: Seq<u8>, es: Seq<EdgeId>) -> Seq<EdgeId>
    decreases es.len(),
{
    if es.len() == 0 {
        Seq::empty()
    } else {
        let p = unknowns(ev, es.drop_last());
        if ev[es.last() as int] > 1 {
            p.push(es.last())
        } else {
            p
        }
    }
}

/// `sol` decides every edge.
pub open spec fn total(sol: Seq<EdgeState>) -> bool {
    forall|e: int| 0 <= e < sol.len() ==> #[trigger] sol[e] != EdgeState::Unknown
}

/// Every known bit of `ev` is the cut bit of `sol`.
pub open spec fn ev_agrees(ev: Seq<u8>, sol: Seq<EdgeState>) -> bool {
    forall|e: int| 0 <= e < ev.len() && #[trigger] ev[e] <= 1 ==> ev[e] as int == cut_bit(sol[e])
}

/// Two related edges are cut alike or not as their relation says.
pub open spec fn uf_sound(uf: ParityUF, sol: Seq<EdgeState>) -> bool {
    forall|x: int, y: int|
        0 <= x < uf.len() && 0 <= y < uf.len() && #[trigger] uf.related(x, y) ==> (cut_bit(sol[x]) + cut_bit(sol[y])) % 2
            == uf.relation(x, y)
}

/// Every forced decision agrees with `sol`.
pub open spec fn forced_ok(forced: Seq<(EdgeId, EdgeState)>, sol: Seq<EdgeState>) -> bool {
    forall|i: int| 0 <= i < forced.len() ==> (#[trigger] forced[i]).0 < sol.len() && sol[forced[i].0 as int] == forced[i].1
}

/// `sol` meets every parity constraint: the cut count over the edges has
/// the given parity.
pub open spec fn cons_hold(cons: Seq<(Vec<EdgeId>, u8)>, sol: Seq<EdgeState>) -> bool {
    forall|i: int| 0 <= i < cons.len() ==> count_in_state(sol, (#[trigger] cons[i]).0@, EdgeState::Cut) % 2 == cons[i].1 as int
}

/// Constraint edges index into `ne` edges and parities are bits.
pub open spec fn cons_in(cons: Seq<(Vec<EdgeId>, u8)>, ne: int) -> bool {
    forall|i: int| 0 <= i < cons.len() ==> (#[trigger] cons[i]).1 <= 1 && forall|q: int|
        0 <= q < cons[i].0@.len() ==> #[trigger] cons[i].0@[q] < ne
}

/// `f1` extends `f0` by decisions on edges still unknown in `ev0`.
pub open spec fn forced_grows(f0: Seq<(EdgeId, EdgeState)>, f1: Seq<(EdgeId, EdgeState)>, ev0: Seq<u8>) -> bool {
    &&& f0.len() <= f1.len()
    &&& forall|i: int| 0 <= i < f0.len() ==> #[trigger] f1[i] == f0[i]
    &&& forall|i: int|
        f0.len() <= i < f1.len() ==> (#[trigger] f1[i]).0 < ev0.len() && ev0[f1[i].0 as int] == 2 && f1[i].1
            != EdgeState::Unknown
}

/// The bit of each edge: 1 cut, 0 uncut, 2 unknown.
pub open spec fn edge_codes(edges: Seq<EdgeState>) -> Seq<u8> {
    Seq::new(
        edges.len(),
        |q: int|
            match edges[q] {
                EdgeState::Cut => 1u8,
                EdgeState::Uncut => 0u8,
                EdgeState::Unknown => 2u8,
            },
    )
}

/// Every edge unknown in `ev0` and decided in `ev` has a decision in `forced`.
pub open spec fn logged(ev0: Seq<u8>, ev: Seq<u8>, forced: Seq<(EdgeId, EdgeState)>) -> bool {
    forall|e: int|
        0 <= e < ev.len() && ev0[e] == 2 && #[trigger] ev[e] <= 1 ==> exists|k: int|
            0 <= k < forced.len() && (#[trigger] forced[k]).0 == e
}

/// What a phase may assume of a completion `sol` and must keep.
pub open spec fn phase_ok(ev: Seq<u8>, uf: ParityUF, forced: Seq<(EdgeId, EdgeState)>, sol: Seq<EdgeState>) -> bool {
    &&& sol.len() == ev.len()
    &&& total(sol)
    &&& ev_agrees(ev, sol)
    &&& uf_sound(uf, sol)
    &&& forced_ok(forced, sol)
}

/// Deciding edges never adds unknowns.
proof fn lemma_unknowns_mono(ev1: Seq<u8>, ev2: Seq<u8>, es: Seq<EdgeId>)
    requires
        ev1.len() == ev2.len(),
        forall|i: int| 0 <= i < es.len() ==> (#[trigger] es[i]) < ev1.len(),
        forall|e: int| 0 <= e < ev2.len() && #[trigger] ev2[e] > 1 ==> ev1[e] > 1,
    ensures
        unknowns(ev2, es).len() <= unknowns(ev1, es).len(),
    decreases es.len(),
{
    if es.len() > 0 {
        assert forall|i: int| 0 <= i < es.drop_last().len() implies (#[trigger] es.drop_last()[i]) < ev1.len() by {
            assert(es.drop_last()[i] == es[i]);
        }
        lemma_unknowns_mono(ev1, ev2, es.drop_last());
        assert(es.last() == es[es.len() - 1]);
    }
}

/// The unknowns of `es` are exactly its undecided edges.
proof fn lemma_unknowns_members(ev: Seq<u8>, es: Seq<EdgeId>)
    ensures
        forall|x: EdgeId| #[trigger] unknowns(ev, es).contains(x) <==> (es.contains(x) && ev[x as int] > 1),
    decreases es.len(),
{
    if es.len() > 0 {
        let init = es.drop_last();
        lemma_unknowns_members(ev, init);
        assert forall|x: EdgeId| #[trigger] unknowns(ev, es).contains(x) <==> (es.contains(x) && ev[x as int] > 1) by {
            let p = unknowns(ev, init);
            if es.contains(x) && ev[x as int] > 1 {
                let i = choose|i: int| 0 <= i < es.len() && es[i] == x;
                if i < es.len() - 1 {
                    assert(init[i] == x);
                    assert(p.contains(x));
                    let q = choose|q: int| 0 <= q < p.len() && p[q] == x;
                    if ev[es.last() as int] > 1 {
                        assert(p.push(es.last())[q] == x);
                    }
                } else {
                    assert(es.last() == x);
                    assert(p.push(x)[p.len() as int] == x);
                }
            }
            if unknowns(ev, es).contains(x) {
                let q = choose|q: int| 0 <= q < unknowns(ev, es).len() && unknowns(ev, es)[q] == x;
                if q < p.len() {
                    assert(p[q] == x);
                    assert(p.contains(x));
                    let i = choose|i: int| 0 <= i < init.len() && init[i] == x;
                    assert(es[i] == x);
                } else {
                    assert(x == es.last());
                    assert(es[es.len() - 1] == x);
                }
            }
        }
    }
}

/// No unknowns exactly when every edge of `es` is decided.
proof fn lemma_unknowns_empty(ev: Seq<u8>, es: Seq<EdgeId>)
    ensures
        (unknowns(ev, es).len() == 0) == (forall|i: int| 0 <= i < es.len() ==> ev[#[trigger] es[i] as int] <= 1),
{
    lemma_unknowns_members(ev, es);
    if unknowns(ev, es).len() != 0 {
        let x = unknowns(ev, es)[0];
        assert(unknowns(ev, es).contains(x));
        let i = choose|i: int| 0 <= i < es.len() && es[i] == x;
        assert(ev[es[i] as int] > 1);
    } else {
        assert forall|i: int| 0 <= i < es.len() implies ev[#[trigger] es[i] as int] <= 1 by {
            if ev[es[i] as int] > 1 {
                assert(es.contains(es[i]));
                assert(unknowns(ev, es).contains(es[i]));
            }
        }
    }
}

proof fn lemma_split(ev: Seq<u8>, sol: Seq<EdgeState>, es: Seq<EdgeId>)
    requires
        ev_agrees(ev, sol),
        forall|i: int| 0 <= i < es.len() ==> (#[trigger] es[i]) < ev.len(),
    ensures
        count_in_state(sol, es, EdgeState::Cut) == known_sum(ev, es) + count_in_state(
            sol,
            unknowns(ev, es),
            EdgeState::Cut,
        ),
    decreases es.len(),
{
    if es.len() > 0 {
        let init = es.drop_last();
        assert forall|i: int| 0 <= i < init.len() implies (#[trigger] init[i]) < ev.len() by {
            assert(init[i] == es[i]);
        }
        lemma_split(ev, sol, init);
        let x = es.last();
        assert(es[es.len() - 1] == x);
        if ev[x as int] > 1 {
            let p = unknowns(ev, init);
            assert(p.push(x).drop_last() == p);
        }
    }
}

/// Two bits' sum pinned by a parity.
proof fn lemma_solve_pair(ks: int, rest: int, p: int, kx: int)
    requires
        0 <= p <= 1,
        kx == ks % 2,
        (ks + rest) % 2 == p,
    ensures
        rest % 2 == (kx + p) % 2,
{
}

proof fn lemma_mod2_chain(bx: int, ba: int, bb: int, by: int, px: int, pa: int, pb: int, py: int, rel: int)
    requires
        0 <= bx <= 1,
        0 <= ba <= 1,
        0 <= bb <= 1,
        0 <= by <= 1,
        0 <= px <= 1,
        0 <= pa <= 1,
        0 <= pb <= 1,
        0 <= py <= 1,
        0 <= rel <= 1,
        (bx + ba) % 2 == (px + pa) % 2,
        (by + bb) % 2 == (py + pb) % 2,
        (ba + bb) % 2 == rel,
    ensures
        (bx + by) % 2 == (px + pa + rel + pb + py) % 2,
{
}

/// The state a bit stands for.
fn bit_state(v: u8) -> (s: EdgeState)
    ensures
        s != EdgeState::Unknown,
        (s == EdgeState::Cut) == (v == 1),
{
    if v == 1 {
        EdgeState::Cut
    } else {
        EdgeState::Uncut
    }
}

/// Join the classes of `a` and `b` with relation `rel`; every completion in
/// which the relation holds and the classes were right keeps them right.
#[verifier::spinoff_prover]
#[verifier::rlimit(40)]
fn sound_union(uf: &mut ParityUF, a: usize, b: usize, rel: u8) -> (r: Result<bool, ()>)
    requires
        old(uf).wf(),
        a < old(uf).len(),
        b < old(uf).len(),
        rel <= 1,
    ensures
        final(uf).wf(),
        final(uf).len() == old(uf).len(),
        forall|sol: Seq<EdgeState>|
            sol.len() == old(uf).len() && #[trigger] uf_sound(*old(uf), sol) && (cut_bit(sol[a as int]) + cut_bit(
                sol[b as int],
            )) % 2 == rel as int ==> r is Ok && uf_sound(*final(uf), sol),
        r is Err <==> old(uf).related(a as int, b as int) && old(uf).relation(a as int, b as int) != rel,
        r == Ok::<bool, ()>(true) <==> !old(uf).related(a as int, b as int),
        r is Err ==> forall|x: int| #[trigger] final(uf).root(x) == old(uf).root(x) && final(uf).parity(x) == old(uf).parity(x),
        r is Ok ==> final(uf).related(a as int, b as int) && final(uf).relation(a as int, b as int) == rel,
        r is Ok ==> forall|x: int, y: int|
            0 <= x < old(uf).len() && 0 <= y < old(uf).len() ==> {
                let merged = (old(uf).root(x) == old(uf).root(a as int) && old(uf).root(y) == old(uf).root(b as int)) || (
                old(uf).root(x) == old(uf).root(b as int) && old(uf).root(y) == old(uf).root(a as int));
                &&& (#[trigger] final(uf).related(x, y) <==> (old(uf).related(x, y) || merged))
                &&& old(uf).related(x, y) ==> final(uf).relation(x, y) == old(uf).relation(x, y)
                &&& !old(uf).related(x, y) && merged ==> final(uf).relation(x, y) == (old(uf).parity(x) + old(uf).parity(
                    a as int,
                ) + rel + old(uf).parity(b as int) + old(uf).parity(y)) % 2
            },
{
    let ghost u0 = *uf;
    let r = uf.union(a, b, rel);
    proof {
        if r is Ok {
            assert forall|x: int, y: int| 0 <= x < u0.len() && 0 <= y < u0.len() implies {
                let merged = (u0.root(x) == u0.root(a as int) && u0.root(y) == u0.root(b as int)) || (u0.root(x) == u0.root(
                    b as int,
                ) && u0.root(y) == u0.root(a as int));
                &&& (#[trigger] uf.related(x, y) <==> (u0.related(x, y) || merged))
                &&& u0.related(x, y) ==> uf.relation(x, y) == u0.relation(x, y)
                &&& !u0.related(x, y) && merged ==> uf.relation(x, y) == (u0.parity(x) + u0.parity(a as int) + rel + u0.parity(
                    b as int,
                ) + u0.parity(y)) % 2
            } by {
                assert(uf.related(x, y) == uf.related(x, y));
            }
        }
    }
    proof {
        assert forall|sol: Seq<EdgeState>|
            sol.len() == u0.len() && #[trigger] uf_sound(u0, sol) && (cut_bit(sol[a as int]) + cut_bit(sol[b as int])) % 2
                == rel as int implies r is Ok && uf_sound(*uf, sol) by {
            if r is Err {
                assert(u0.related(a as int, b as int));
            } else {
                assert forall|x: int, y: int|
                    0 <= x < uf.len() && 0 <= y < uf.len() && #[trigger] uf.related(x, y) implies (cut_bit(sol[x])
                    + cut_bit(sol[y])) % 2 == uf.relation(x, y) by {
                    if u0.related(x, y) {
                    } else {
                        u0.lemma_parity_bit(x);
                        u0.lemma_parity_bit(y);
                        u0.lemma_parity_bit(a as int);
                        u0.lemma_parity_bit(b as int);
                        if u0.root(x) == u0.root(a as int) && u0.root(y) == u0.root(b as int) {
                            assert(u0.related(x, a as int));
                            assert(u0.related(y, b as int));
                            lemma_mod2_chain(
                                cut_bit(sol[x]),
                                cut_bit(sol[a as int]),
                                cut_bit(sol[b as int]),
                                cut_bit(sol[y]),
                                u0.parity(x),
                                u0.parity(a as int),
                                u0.parity(b as int),
                                u0.parity(y),
                                rel as int,
                            );
                        } else {
                            assert(u0.related(x, b as int));
                            assert(u0.related(y, a as int));
                            lemma_mod2_chain(
                                cut_bit(sol[x]),
                                cut_bit(sol[b as int]),
                                cut_bit(sol[a as int]),
                                cut_bit(sol[y]),
                                u0.parity(x),
                                u0.parity(b as int),
                                u0.parity(a as int),
                                u0.parity(y),
                                rel as int,
                            );
                        }
                    }
                }
            }
        }
    }
    r
}

/// The known-bit parity and the unknown edges of `es`.
fn scan(ev: &Vec<u8>, es: &Vec<EdgeId>) -> (r: (u8, Vec<EdgeId>))
    requires
        forall|i: int| 0 <= i < es@.len() ==> (#[trigger] es@[i]) < ev@.len(),
        forall|e: int| 0 <= e < ev@.len() ==> #[trigger] ev@[e] <= 2,
    ensures
        r.0 <= 1,
        r.0 as int == known_sum(ev@, es@) % 2,
        r.1@ == unknowns(ev@, es@),
        r.1@.len() <= es@.len(),
        forall|i: int| 0 <= i < r.1@.len() ==> (#[trigger] r.1@[i]) < ev@.len() && ev@[r.1@[i] as int] == 2,
{
    let mut kx: u8 = 0;
    let mut unks: Vec<EdgeId> = Vec::new();
    let mut i: usize = 0;
    while i < es.len()
        invariant
            forall|q: int| 0 <= q < es@.len() ==> (#[trigger] es@[q]) < ev@.len(),
            forall|e: int| 0 <= e < ev@.len() ==> #[trigger] ev@[e] <= 2,
            i <= es@.len(),
            kx <= 1,
            kx as int == known_sum(ev@, es@.take(i as int)) % 2,
            unks@ == unknowns(ev@, es@.take(i as int)),
            unks@.len() <= i,
            forall|q: int| 0 <= q < unks@.len() ==> (#[trigger] unks@[q]) < ev@.len() && ev@[unks@[q] as int] == 2,
        decreases es@.len() - i,
    {
        let e = es[i];
        proof {
            assert(es@.take(i + 1).drop_last() == es@.take(i as int));
            assert(es@.take(i + 1).last() == e);
        }
        if ev[e] <= 1 {
            proof {
                lemma_xor_bits(kx, ev@[e as int]);
            }
            kx = kx ^ ev[e];
        } else {
            unks.push(e);
        }
        i = i + 1;
    }
    proof {
        assert(es@.take(i as int) == es@);
    }
    (kx, unks)
}

/// Some decided edge lies in the class with root `root`.
pub open spec fn root_fixed(ev: Seq<u8>, uf: ParityUF, root: int) -> bool {
    exists|k: int| 0 <= k < ev.len() && ev[k] <= 1 && uf.root(k) == root
}

impl Solver {
    /// The parity a watchtower clue fixes on the cut count among the
    /// internal edges at its grid point, with those edges: with four cells
    /// around (a cycle) a clue of 4 fixes 4 cuts, smaller clues fix nothing
    /// (a piece may touch the point twice); with two or three cells (a path)
    /// a clue `v` other than 2 fixes `v - 1` cuts (a clue of 2 allows one or
    /// two).  Points with fewer than two cells or edges fix nothing.
    pub open spec fn parity_constraint(&self, clue: VertexClue) -> Option<(Seq<EdgeId>, u8)> {
        let v = clue.vertex as int;
        let n = self.corner_count(v);
        let eids = self.corner_edges(v);
        if n < 2 || (n == 4 && clue.value <= 3) || (n != 4 && clue.value == 2) || eids.len() < 2 {
            None
        } else {
            let k: int = if n == 4 {
                clue.value as int
            } else if clue.value >= 1 {
                clue.value - 1
            } else {
                0
            };
            Some((eids, (k % 2) as u8))
        }
    }

    /// The parity constraints of the first `k` watchtower clues, in order.
    pub open spec fn parity_list(&self, k: int) -> Seq<(Seq<EdgeId>, u8)>
        decreases k,
    {
        if k <= 0 {
            Seq::empty()
        } else {
            let p = self.parity_list(k - 1);
            match self.parity_constraint(self.vertex_clues@[k - 1]) {
                Some(c) => p.push(c),
                None => p,
            }
        }
    }

    /// Every parity constraint of the watchtower clues with at most one
    /// edge unknown in `before` has all its edges decided in `after`.
    pub open spec fn short_parity_decided(&self, before: Seq<EdgeState>, after: Seq<EdgeState>) -> bool {
        let cons = self.parity_list(self.vertex_clues@.len() as int);
        forall|i: int|
            0 <= i < cons.len() && unknowns(edge_codes(before), (#[trigger] cons[i]).0).len() <= 1 ==> forall|q: int|
                0 <= q < cons[i].0.len() ==> after[#[trigger] cons[i].0[q] as int] != EdgeState::Unknown
    }

    /// `sol` meets every parity constraint of the watchtower clues.
    pub open spec fn parity_holds(&self, sol: Seq<EdgeState>) -> bool {
        let cons = self.parity_list(self.vertex_clues@.len() as int);
        forall|i: int| 0 <= i < cons.len() ==> count_in_state(sol, (#[trigger] cons[i]).0, EdgeState::Cut) % 2 == cons[i].1 as int
    }

    /// The parity constraints of the watchtower clues (see
    /// `parity_constraint`), in clue order.
    fn collect_vertex_parity_constraints(&self) -> (cons: Vec<(Vec<EdgeId>, u8)>)
        requires
            self.grid.wf(),
            self.clues_in_range(),
        ensures
            cons@.len() == self.parity_list(self.vertex_clues@.len() as int).len(),
            forall|i: int|
                0 <= i < cons@.len() ==> (#[trigger] cons@[i]).0@ == self.parity_list(
                    self.vertex_clues@.len() as int,
                )[i].0 && cons@[i].1 == self.parity_list(self.vertex_clues@.len() as int)[i].1,
            cons_in(cons@, self.grid.n_edges()),
    {
        let mut cons: Vec<(Vec<EdgeId>, u8)> = Vec::new();
        let mut i: usize = 0;
        while i < self.vertex_clues.len()
            invariant
                self.grid.wf(),
                self.clues_in_range(),
                i <= self.vertex_clues@.len(),
                cons@.len() == self.parity_list(i as int).len(),
                forall|q: int|
                    0 <= q < cons@.len() ==> (#[trigger] cons@[q]).0@ == self.parity_list(i as int)[q].0 && cons@[q].1
                        == self.parity_list(i as int)[q].1,
                cons_in(cons@, self.grid.n_edges()),
            decreases self.vertex_clues@.len() - i,
        {
            let clue = self.vertex_clues[i];
            let (n, eids) = self.corner_info(clue.vertex);
            let ghost prev = self.parity_list(i as int);
            if !(n < 2 || (n == 4 && clue.value <= 3) || (n != 4 && clue.value == 2) || eids.len() < 2) {
                let k: usize = if n == 4 {
                    clue.value
                } else if clue.value >= 1 {
                    clue.value - 1
                } else {
                    0
                };
                let ghost c0 = cons@;
                cons.push((eids, (k % 2) as u8));
                proof {
                    assert(self.parity_list(i + 1) == prev.push((eids@, (k % 2) as u8)));
                    assert forall|q: int| 0 <= q < cons@.len() implies (#[trigger] cons@[q]).1 <= 1 && forall|t: int|
                        0 <= t < cons@[q].0@.len() ==> #[trigger] cons@[q].0@[t] < self.grid.n_edges() by {
                        if q < c0.len() {
                            assert(cons@[q] == c0[q]);
                        }
                    }
                }
            }
            i = i + 1;
        }
        cons
    }

    /// Phase 1: constraints with at most two unknown edges decide a single
    /// unknown, relate two unknowns, or check a fully known parity.
    fn vertex_parity_phase1(
        constraints: &Vec<(Vec<EdgeId>, u8)>,
        uf: &mut ParityUF,
        ev: &mut Vec<u8>,
        forced: &mut Vec<(EdgeId, EdgeState)>,
    ) -> (r: Result<(), ()>)
        requires
            old(uf).wf(),
            old(uf).len() == old(ev)@.len(),
            forall|e: int| 0 <= e < old(ev)@.len() ==> #[trigger] old(ev)@[e] <= 2,
            cons_in(constraints@, old(ev)@.len() as int),
        ensures
            final(uf).wf(),
            final(uf).len() == old(uf).len(),
            final(ev)@.len() == old(ev)@.len(),
            forall|e: int| 0 <= e < final(ev)@.len() ==> #[trigger] final(ev)@[e] <= 2,
            forall|e: int| 0 <= e < final(ev)@.len() && #[trigger] final(ev)@[e] == 2 ==> old(ev)@[e] == 2,
            forced_grows(old(forced)@, final(forced)@, old(ev)@),
            forall|sol: Seq<EdgeState>|
                #[trigger] phase_ok(old(ev)@, *old(uf), old(forced)@, sol) && cons_hold(constraints@, sol) ==> r is Ok
                    && phase_ok(final(ev)@, *final(uf), final(forced)@, sol),
            r is Ok ==> forall|ci: int|
                0 <= ci < constraints@.len() && unknowns(old(ev)@, constraints@[ci].0@).len() <= 1
                    ==> #[trigger] unknowns(final(ev)@, constraints@[ci].0@).len() == 0,
            logged(old(ev)@, final(ev)@, final(forced)@),
    {
        let mut ci: usize = 0;
        while ci < constraints.len()
            invariant
                uf.wf(),
                uf.len() == old(uf).len(),
                ev@.len() == old(ev)@.len(),
                uf.len() == ev@.len(),
                forall|e: int| 0 <= e < ev@.len() ==> #[trigger] ev@[e] <= 2,
                forall|e: int| 0 <= e < ev@.len() && #[trigger] ev@[e] == 2 ==> old(ev)@[e] == 2,
                cons_in(constraints@, old(ev)@.len() as int),
                forced_grows(old(forced)@, forced@, old(ev)@),
                logged(old(ev)@, ev@, forced@),
                ci <= constraints@.len(),
                forall|c2: int|
                    0 <= c2 < ci && unknowns(old(ev)@, constraints@[c2].0@).len() <= 1 ==> #[trigger] unknowns(
                        ev@,
                        constraints@[c2].0@,
                    ).len() == 0,
                forall|sol: Seq<EdgeState>|
                    #[trigger] phase_ok(old(ev)@, *old(uf), old(forced)@, sol) && cons_hold(constraints@, sol) ==> phase_ok(
                        ev@,
                        *uf,
                        forced@,
                        sol,
                    ),
            decreases constraints@.len() - ci,
        {
            let es = &constraints[ci].0;
            let parity = constraints[ci].1;
            let ghost ev_it = ev@;
            proof {
                assert(constraints@[ci as int].1 <= 1);
                assert forall|q: int| 0 <= q < es@.len() implies (#[trigger] es@[q]) < ev@.len() by {
                    assert(constraints@[ci as int].0@[q] < old(ev)@.len());
                }
            }
            let (kx, unks) = scan(ev, es);
            proof {
                assert forall|sol: Seq<EdgeState>|
                    #[trigger] phase_ok(old(ev)@, *old(uf), old(forced)@, sol) && cons_hold(constraints@, sol) implies count_in_state(
                    sol,
                    unks@,
                    EdgeState::Cut,
                ) % 2 == (kx + parity) % 2 by {
                    lemma_split(ev@, sol, es@);
                    assert(count_in_state(sol, constraints@[ci as int].0@, EdgeState::Cut) % 2 == parity as int);
                    lemma_solve_pair(known_sum(ev@, es@), count_in_state(sol, unks@, EdgeState::Cut), parity as int, kx as int);
                }
            }
            if unks.len() == 0 {
                if kx != parity {
                    proof {
                        assert forall|sol: Seq<EdgeState>|
                            #[trigger] phase_ok(old(ev)@, *old(uf), old(forced)@, sol) && cons_hold(constraints@, sol) implies false by {
                            assert(count_in_state(sol, unks@, EdgeState::Cut) == 0);
                        }
                    }
                    return Err(());
                }
            } else if unks.len() == 1 {
                let u = unks[0];
                proof {
                    lemma_xor_bits(kx, parity);
                }
                let v = kx ^ parity;
                let st = bit_state(v);
                let ghost ev0 = ev@;
                let ghost f0 = forced@;
                ev.set(u, v);
                forced.push((u, st));
                proof {
                    assert forall|sol: Seq<EdgeState>|
                        #[trigger] phase_ok(old(ev)@, *old(uf), old(forced)@, sol) && cons_hold(constraints@, sol) implies phase_ok(
                        ev@,
                        *uf,
                        forced@,
                        sol,
                    ) by {
                        assert(phase_ok(ev0, *uf, f0, sol));
                        assert(unks@.drop_last() == Seq::<EdgeId>::empty());
                        assert(count_in_state(sol, Seq::<EdgeId>::empty(), EdgeState::Cut) == 0);
                        assert(unks@.last() == u);
                        assert(count_in_state(sol, unks@, EdgeState::Cut) == cut_bit(sol[u as int]));
                        assert(sol[u as int] != EdgeState::Unknown);
                        assert forall|e: int| 0 <= e < ev@.len() && #[trigger] ev@[e] <= 1 implies ev@[e] as int == cut_bit(
                            sol[e],
                        ) by {
                            if e != u as int {
                                assert(ev@[e] == ev0[e]);
                            }
                        }
                        assert forall|i: int| 0 <= i < forced@.len() implies (#[trigger] forced@[i]).0 < sol.len()
                            && sol[forced@[i].0 as int] == forced@[i].1 by {
                            if i < f0.len() {
                                assert(forced@[i] == f0[i]);
                            }
                        }
                    }
                    assert forall|i: int| 0 <= i < old(forced)@.len() implies #[trigger] forced@[i] == old(forced)@[i] by {
                        assert(forced@[i] == f0[i]);
                    }
                    assert forall|e: int| 0 <= e < ev@.len() && old(ev)@[e] == 2 && #[trigger] ev@[e] <= 1 implies exists|k: int|
                        0 <= k < forced@.len() && (#[trigger] forced@[k]).0 == e by {
                        if e == u as int {
                            assert(forced@[f0.len() as int].0 == e);
                        } else {
                            let k = choose|k: int| 0 <= k < f0.len() && (#[trigger] f0[k]).0 == e;
                            assert(forced@[k] == f0[k]);
                        }
                    }
                    assert forall|i: int| old(forced)@.len() <= i < forced@.len() implies (#[trigger] forced@[i]).0 < old(
                        ev,
                    )@.len() && old(ev)@[forced@[i].0 as int] == 2 by {
                        if i < f0.len() {
                            assert(forced@[i] == f0[i]);
                        } else {
                            assert(ev0[u as int] == 2);
                        }
                    }
                }
            } else if unks.len() == 2 {
                proof {
                    lemma_xor_bits(kx, parity);
                }
                let ghost u0 = *uf;
                let res = sound_union(uf, unks[0], unks[1], kx ^ parity);
                proof {
                    assert forall|sol: Seq<EdgeState>|
                        #[trigger] phase_ok(old(ev)@, *old(uf), old(forced)@, sol) && cons_hold(constraints@, sol) implies res is Ok
                        && phase_ok(ev@, *uf, forced@, sol) by {
                        assert(phase_ok(ev@, u0, forced@, sol));
                        let a = unks@[0];
                        let b = unks@[1];
                        assert(unks@.drop_last() == seq![a]);
                        assert(seq![a].drop_last() == Seq::<EdgeId>::empty());
                        assert(count_in_state(sol, Seq::<EdgeId>::empty(), EdgeState::Cut) == 0);
                        assert(seq![a].last() == a);
                        assert(count_in_state(sol, seq![a], EdgeState::Cut) == cut_bit(sol[a as int]));
                        assert(unks@.last() == b);
                        assert(count_in_state(sol, unks@, EdgeState::Cut) == cut_bit(sol[a as int]) + cut_bit(sol[b as int]));
                        assert(uf_sound(u0, sol));
                    }
                }
                if res.is_err() {
                    return Err(());
                }
            }
            proof {
                assert(cons_in(constraints@, old(ev)@.len() as int));
                assert forall|e: int| 0 <= e < ev@.len() && #[trigger] ev@[e] > 1 implies ev_it[e] > 1 by {
                    if ev_it[e] <= 1 {
                        assert(ev@[e] == ev_it[e]);
                    }
                }
                assert forall|c2: int|
                    0 <= c2 < ci + 1 && unknowns(old(ev)@, constraints@[c2].0@).len() <= 1 implies #[trigger] unknowns(
                        ev@,
                        constraints@[c2].0@,
                    ).len() == 0 by {
                    let es2 = constraints@[c2].0@;
                    assert(forall|i: int| 0 <= i < es2.len() ==> (#[trigger] es2[i]) < old(ev)@.len());
                    if c2 < ci {
                        lemma_unknowns_mono(ev_it, ev@, es2);
                    } else {
                        assert(es2 == es@);
                        lemma_unknowns_mono(old(ev)@, ev_it, es2);
                        lemma_unknowns_members(ev_it, es2);
                        lemma_unknowns_empty(ev@, es2);
                        assert forall|i: int| 0 <= i < es2.len() implies ev@[#[trigger] es2[i] as int] <= 1 by {
                            let x = es2[i];
                            if ev_it[x as int] > 1 {
                                assert(es2.contains(x));
                                assert(unks@.contains(x));
                                assert(unks@.len() == 1);
                                assert(unks@[0] == x);
                            } else {
                                assert(ev@[x as int] == ev_it[x as int] || x == unks@[0]);
                            }
                        }
                    }
                }
            }
            ci = ci + 1;
        }
        Ok(())
    }

    /// Phase 2: a constraint with three or more unknown edges, two of which
    /// are already related, decides or relates the rest.
    fn vertex_parity_phase2(
        constraints: &Vec<(Vec<EdgeId>, u8)>,
        uf: &mut ParityUF,
        ev: &mut Vec<u8>,
        forced: &mut Vec<(EdgeId, EdgeState)>,
    ) -> (r: Result<(), ()>)
        requires
            old(uf).wf(),
            old(uf).len() == old(ev)@.len(),
            forall|e: int| 0 <= e < old(ev)@.len() ==> #[trigger] old(ev)@[e] <= 2,
            cons_in(constraints@, old(ev)@.len() as int),
        ensures
            final(uf).wf(),
            final(uf).len() == old(uf).len(),
            final(ev)@.len() == old(ev)@.len(),
            forall|e: int| 0 <= e < final(ev)@.len() ==> #[trigger] final(ev)@[e] <= 2,
            forall|e: int| 0 <= e < final(ev)@.len() && #[trigger] final(ev)@[e] == 2 ==> old(ev)@[e] == 2,
            forced_grows(old(forced)@, final(forced)@, old(ev)@),
            forall|sol: Seq<EdgeState>|
                #[trigger] phase_ok(old(ev)@, *old(uf), old(forced)@, sol) && cons_hold(constraints@, sol) ==> r is Ok
                    && phase_ok(final(ev)@, *final(uf), final(forced)@, sol),
            logged(old(ev)@, final(ev)@, final(forced)@),
    {
        let mut ci: usize = 0;
        while ci < constraints.len()
            invariant
                uf.wf(),
                uf.len() == old(uf).len(),
                ev@.len() == old(ev)@.len(),
                uf.len() == ev@.len(),
                forall|e: int| 0 <= e < ev@.len() ==> #[trigger] ev@[e] <= 2,
                forall|e: int| 0 <= e < ev@.len() && #[trigger] ev@[e] == 2 ==> old(ev)@[e] == 2,
                cons_in(constraints@, old(ev)@.len() as int),
                forced_grows(old(forced)@, forced@, old(ev)@),
                logged(old(ev)@, ev@, forced@),
                ci <= constraints@.len(),
                forall|sol: Seq<EdgeState>|
                    #[trigger] phase_ok(old(ev)@, *old(uf), old(forced)@, sol) && cons_hold(constraints@, sol) ==> phase_ok(
                        ev@,
                        *uf,
                        forced@,
                        sol,
                    ),
            decreases constraints@.len() - ci,
        {
            let es = &constraints[ci].0;
            let parity = constraints[ci].1;
            proof {
                assert(constraints@[ci as int].1 <= 1);
                assert forall|q: int| 0 <= q < es@.len() implies (#[trigger] es@[q]) < ev@.len() by {
                    assert(constraints@[ci as int].0@[q] < old(ev)@.len());
                }
            }
            let (kx, unks) = scan(ev, es);
            proof {
                assert forall|sol: Seq<EdgeState>|
                    #[trigger] phase_ok(old(ev)@, *old(uf), old(forced)@, sol) && cons_hold(constraints@, sol) implies count_in_state(
                    sol,
                    unks@,
                    EdgeState::Cut,
                ) % 2 == (kx + parity) % 2 by {
                    lemma_split(ev@, sol, es@);
                    assert(count_in_state(sol, constraints@[ci as int].0@, EdgeState::Cut) % 2 == parity as int);
                    lemma_solve_pair(known_sum(ev@, es@), count_in_state(sol, unks@, EdgeState::Cut), parity as int, kx as int);
                }
            }
            if unks.len() >= 3 {
                proof {
                    lemma_xor_bits(kx, parity);
                }
                let target = kx ^ parity;
                let mut found = false;
                let mut fi: usize = 0;
                let mut fj: usize = 0;
                let mut xij: u8 = 0;
                let mut i: usize = 0;
                while i < unks.len() && !found
                    invariant
                        uf.wf(),
                        uf.len() == ev@.len(),
                        forall|q: int| 0 <= q < unks@.len() ==> (#[trigger] unks@[q]) < ev@.len(),
                        i <= unks@.len(),
                        found ==> fi < fj < unks@.len() && uf.related(unks@[fi as int] as int, unks@[fj as int] as int)
                            && xij <= 1 && xij as int == uf.relation(unks@[fi as int] as int, unks@[fj as int] as int),
                    decreases unks@.len() - i,
                {
                    let mut j: usize = i + 1;
                    while j < unks.len() && !found
                        invariant
                            uf.wf(),
                            uf.len() == ev@.len(),
                            forall|q: int| 0 <= q < unks@.len() ==> (#[trigger] unks@[q]) < ev@.len(),
                            i < unks@.len(),
                            i < j,
                            found ==> fi < fj < unks@.len() && uf.related(unks@[fi as int] as int, unks@[fj as int] as int)
                                && xij <= 1 && xij as int == uf.relation(unks@[fi as int] as int, unks@[fj as int] as int),
                        decreases unks@.len() - j,
                    {
                        let (r1, p1) = uf.find(unks[i]);
                        let (r2, p2) = uf.find(unks[j]);
                        if r1 == r2 {
                            proof {
                                lemma_xor_bits(p1, p2);
                            }
                            found = true;
                            fi = i;
                            fj = j;
                            xij = p1 ^ p2;
                        }
                        j = j + 1;
                    }
                    i = i + 1;
                }
                if found {
                    let mut rem: Vec<EdgeId> = Vec::new();
                    let mut t: usize = 0;
                    while t < unks.len()
                        invariant
                            fi < fj < unks@.len(),
                            t <= unks@.len(),
                            forall|q: int| 0 <= q < unks@.len() ==> (#[trigger] unks@[q]) < ev@.len() && ev@[unks@[q] as int] == 2,
                            forall|q: int| 0 <= q < rem@.len() ==> (#[trigger] rem@[q]) < ev@.len() && ev@[rem@[q] as int] == 2,
                            rem@.len() == t - (if t > fi {
                                1int
                            } else {
                                0int
                            }) - (if t > fj {
                                1int
                            } else {
                                0int
                            }),
                            forall|sol: Seq<EdgeState>|
                                #[trigger] count_in_state(sol, unks@.take(t as int), EdgeState::Cut) == count_in_state(
                                    sol,
                                    rem@,
                                    EdgeState::Cut,
                                ) + (if t > fi {
                                    cut_bit(sol[unks@[fi as int] as int])
                                } else {
                                    0
                                }) + (if t > fj {
                                    cut_bit(sol[unks@[fj as int] as int])
                                } else {
                                    0
                                }),
                        decreases unks@.len() - t,
                    {
                        let x = unks[t];
                        let ghost r0 = rem@;
                        if t != fi && t != fj {
                            rem.push(x);
                        }
                        proof {
                            assert(unks@.take(t + 1).drop_last() == unks@.take(t as int));
                            assert(unks@.take(t + 1).last() == x);
                            assert forall|sol: Seq<EdgeState>|
                                #[trigger] count_in_state(sol, unks@.take(t + 1), EdgeState::Cut) == count_in_state(
                                    sol,
                                    rem@,
                                    EdgeState::Cut,
                                ) + (if t + 1 > fi {
                                    cut_bit(sol[unks@[fi as int] as int])
                                } else {
                                    0
                                }) + (if t + 1 > fj {
                                    cut_bit(sol[unks@[fj as int] as int])
                                } else {
                                    0
                                }) by {
                                assert(count_in_state(sol, unks@.take(t as int), EdgeState::Cut) == count_in_state(
                                    sol,
                                    r0,
                                    EdgeState::Cut,
                                ) + (if t > fi {
                                    cut_bit(sol[unks@[fi as int] as int])
                                } else {
                                    0
                                }) + (if t > fj {
                                    cut_bit(sol[unks@[fj as int] as int])
                                } else {
                                    0
                                }));
                                if t != fi && t != fj {
                                    assert(rem@.drop_last() == r0);
                                    assert(rem@.last() == x);
                                }
                            }
                            assert forall|q: int| 0 <= q < rem@.len() implies (#[trigger] rem@[q]) < ev@.len() && ev@[rem@[q] as int]
                                == 2 by {
                                if q < r0.len() {
                                    assert(rem@[q] == r0[q]);
                                }
                            }
                        }
                        t = t + 1;
                    }
                    proof {
                        assert(unks@.take(t as int) == unks@);
                        lemma_xor_bits(target, xij);
                        assert forall|sol: Seq<EdgeState>|
                            #[trigger] phase_ok(old(ev)@, *old(uf), old(forced)@, sol) && cons_hold(constraints@, sol) implies count_in_state(
                            sol,
                            rem@,
                            EdgeState::Cut,
                        ) % 2 == (target ^ xij) as int by {
                            assert(count_in_state(sol, unks@.take(t as int), EdgeState::Cut) == count_in_state(
                                sol,
                                rem@,
                                EdgeState::Cut,
                            ) + cut_bit(sol[unks@[fi as int] as int]) + cut_bit(sol[unks@[fj as int] as int]));
                            assert(uf_sound(*uf, sol));
                            lemma_solve_pair(
                                cut_bit(sol[unks@[fi as int] as int]) + cut_bit(sol[unks@[fj as int] as int]),
                                count_in_state(sol, rem@, EdgeState::Cut),
                                target as int,
                                xij as int,
                            );
                        }
                    }
                    if rem.len() == 1 {
                        let u = rem[0];
                        let v = target ^ xij;
                        let st = bit_state(v);
                        let ghost ev0 = ev@;
                        let ghost f0 = forced@;
                        ev.set(u, v);
                        forced.push((u, st));
                        proof {
                            assert forall|sol: Seq<EdgeState>|
                                #[trigger] phase_ok(old(ev)@, *old(uf), old(forced)@, sol) && cons_hold(constraints@, sol) implies phase_ok(
                                ev@,
                                *uf,
                                forced@,
                                sol,
                            ) by {
                                assert(phase_ok(ev0, *uf, f0, sol));
                                assert(rem@.drop_last() == Seq::<EdgeId>::empty());
                                assert(count_in_state(sol, Seq::<EdgeId>::empty(), EdgeState::Cut) == 0);
                                assert(rem@.last() == u);
                                assert(count_in_state(sol, rem@, EdgeState::Cut) == cut_bit(sol[u as int]));
                                assert(sol[u as int] != EdgeState::Unknown);
                                assert forall|e: int| 0 <= e < ev@.len() && #[trigger] ev@[e] <= 1 implies ev@[e] as int
                                    == cut_bit(sol[e]) by {
                                    if e != u as int {
                                        assert(ev@[e] == ev0[e]);
                                    }
                                }
                                assert forall|i: int| 0 <= i < forced@.len() implies (#[trigger] forced@[i]).0 < sol.len()
                                    && sol[forced@[i].0 as int] == forced@[i].1 by {
                                    if i < f0.len() {
                                        assert(forced@[i] == f0[i]);
                                    }
                                }
                            }
                            assert forall|i: int| 0 <= i < old(forced)@.len() implies #[trigger] forced@[i] == old(forced)@[i] by {
                                assert(forced@[i] == f0[i]);
                            }
                            assert forall|q: int| 0 <= q < ev@.len() && old(ev)@[q] == 2 && #[trigger] ev@[q] <= 1 implies exists|k: int|
                                0 <= k < forced@.len() && (#[trigger] forced@[k]).0 == q by {
                                if q == u as int {
                                    assert(forced@[f0.len() as int].0 == q);
                                } else {
                                    let k = choose|k: int| 0 <= k < f0.len() && (#[trigger] f0[k]).0 == q;
                                    assert(forced@[k] == f0[k]);
                                }
                            }
                            assert forall|i: int| old(forced)@.len() <= i < forced@.len() implies (#[trigger] forced@[i]).0 < old(
                                ev,
                            )@.len() && old(ev)@[forced@[i].0 as int] == 2 by {
                                if i < f0.len() {
                                    assert(forced@[i] == f0[i]);
                                } else {
                                    assert(ev0[u as int] == 2);
                                }
                            }
                        }
                    } else if rem.len() == 2 {
                        let ghost u0 = *uf;
                        let res = sound_union(uf, rem[0], rem[1], target ^ xij);
                        proof {
                            assert forall|sol: Seq<EdgeState>|
                                #[trigger] phase_ok(old(ev)@, *old(uf), old(forced)@, sol) && cons_hold(constraints@, sol) implies res
                                is Ok && phase_ok(ev@, *uf, forced@, sol) by {
                                assert(phase_ok(ev@, u0, forced@, sol));
                                let a = rem@[0];
                                let b = rem@[1];
                                assert(rem@.drop_last() == seq![a]);
                                assert(seq![a].drop_last() == Seq::<EdgeId>::empty());
                                assert(count_in_state(sol, Seq::<EdgeId>::empty(), EdgeState::Cut) == 0);
                                assert(seq![a].last() == a);
                                assert(count_in_state(sol, seq![a], EdgeState::Cut) == cut_bit(sol[a as int]));
                                assert(rem@.last() == b);
                                assert(count_in_state(sol, rem@, EdgeState::Cut) == cut_bit(sol[a as int]) + cut_bit(sol[b as int]));
                                assert(uf_sound(u0, sol));
                            }
                        }
                        if res.is_err() {
                            return Err(());
                        }
                    }
                }
            }
            ci = ci + 1;
        }
        Ok(())
    }

    /// Phase 3: a known edge fixes the cut bit of its class's root; every
    /// unknown edge of a class with a fixed root is decided.  Two known edges
    /// that disagree about their root are a contradiction.
    fn vertex_parity_phase3(ne: usize, uf: &ParityUF, ev: &mut Vec<u8>, forced: &mut Vec<(EdgeId, EdgeState)>) -> (r:
        Result<(), ()>)
        requires
            uf.wf(),
            uf.len() == ne,
            old(ev)@.len() == ne,
            forall|e: int| 0 <= e < old(ev)@.len() ==> #[trigger] old(ev)@[e] <= 2,
        ensures
            final(ev)@.len() == old(ev)@.len(),
            forall|e: int| 0 <= e < final(ev)@.len() ==> #[trigger] final(ev)@[e] <= 2,
            forall|e: int| 0 <= e < final(ev)@.len() && #[trigger] final(ev)@[e] == 2 ==> old(ev)@[e] == 2,
            forced_grows(old(forced)@, final(forced)@, old(ev)@),
            forall|sol: Seq<EdgeState>|
                #[trigger] phase_ok(old(ev)@, *uf, old(forced)@, sol) ==> r is Ok && phase_ok(
                    final(ev)@,
                    *uf,
                    final(forced)@,
                    sol,
                ),
            r is Ok ==> forall|e: int|
                0 <= e < ne && old(ev)@[e] == 2 && #[trigger] root_fixed(old(ev)@, *uf, uf.root(e)) ==> final(ev)@[e] <= 1,
            logged(old(ev)@, final(ev)@, final(forced)@),
    {
        let mut rv: Vec<Option<u8>> = vec![None; ne];
        let mut e: usize = 0;
        while e < ne
            invariant
                uf.wf(),
                uf.len() == ne,
                ev@ == old(ev)@,
                old(ev)@.len() == ne,
                forall|q: int| 0 <= q < ne ==> #[trigger] old(ev)@[q] <= 2,
                forced@ == old(forced)@,
                rv@.len() == ne,
                e <= ne,
                forall|q: int| 0 <= q < e && old(ev)@[q] <= 1 ==> (#[trigger] rv@[uf.root(q)]) is Some,
                forall|q: int| 0 <= q < ne && (#[trigger] rv@[q]) is Some ==> exists|k: int|
                    0 <= k < ne && old(ev)@[k] <= 1 && uf.root(k) == q,
                forall|q: int| 0 <= q < ne && (#[trigger] rv@[q]) is Some ==> rv@[q].unwrap() <= 1,
                forall|sol: Seq<EdgeState>|
                    #[trigger] phase_ok(old(ev)@, *uf, old(forced)@, sol) ==> forall|q: int|
                        0 <= q < ne && (#[trigger] rv@[q]) is Some ==> rv@[q].unwrap() as int == cut_bit(sol[q]),
            decreases ne - e,
        {
            let ghost rvb = rv@;
            if ev[e] <= 1 {
                let (root, p) = uf.find(e);
                proof {
                    lemma_xor_bits(p, ev@[e as int]);
                    uf.lemma_parity_bit(e as int);
                }
                let rr = p ^ ev[e];
                proof {
                    assert forall|sol: Seq<EdgeState>| #[trigger] phase_ok(old(ev)@, *uf, old(forced)@, sol) implies rr as int
                        == cut_bit(sol[root as int]) by {
                        assert(uf.related(e as int, root as int));
                        assert(ev@[e as int] as int == cut_bit(sol[e as int]));
                    }
                }
                match rv[root] {
                    Some(ex) => {
                        if ex != rr {
                            proof {
                                assert forall|sol: Seq<EdgeState>| #[trigger] phase_ok(old(ev)@, *uf, old(forced)@, sol) implies false by {
                                    assert(rv@[root as int] is Some);
                                }
                            }
                            return Err(());
                        }
                    },
                    None => {
                        let ghost rv0 = rv@;
                        rv.set(root, Some(rr));
                        proof {
                            assert forall|sol: Seq<EdgeState>| #[trigger] phase_ok(old(ev)@, *uf, old(forced)@, sol) implies forall|q: int|
                                0 <= q < ne && (#[trigger] rv@[q]) is Some ==> rv@[q].unwrap() as int == cut_bit(sol[q]) by {
                                assert forall|q: int| 0 <= q < ne && (#[trigger] rv@[q]) is Some implies rv@[q].unwrap() as int
                                    == cut_bit(sol[q]) by {
                                    if q != root as int {
                                        assert(rv@[q] == rv0[q]);
                                    }
                                }
                            }
                        }
                    },
                }
                proof {
                    assert(rv@ == rvb || rv@ == rvb.update(root as int, Some(rr)));
                    assert(rv@[root as int] is Some);
                    assert(uf.root(e as int) == root as int);
                    assert(rv@[uf.root(e as int)] is Some);
                    assert forall|x: int| 0 <= x < ne && rvb[x] is Some implies #[trigger] rv@[x] is Some by {}
                }
            }
            proof {
                assert forall|x: int| 0 <= x < ne && rvb[x] is Some implies #[trigger] rv@[x] is Some by {}
                assert(old(ev)@[e as int] <= 1 ==> rv@[uf.root(e as int)] is Some);
            }
            proof {
                assert forall|q: int| 0 <= q < e + 1 && old(ev)@[q] <= 1 implies (#[trigger] rv@[uf.root(q)]) is Some by {
                    if q < e {
                        assert(rvb[uf.root(q)] is Some);
                        uf.lemma_parity_bit(q);
                    }
                }
                assert forall|q: int| 0 <= q < ne && (#[trigger] rv@[q]) is Some implies exists|k: int|
                    0 <= k < ne && old(ev)@[k] <= 1 && uf.root(k) == q by {
                    if rvb[q] is Some {
                    } else {
                        assert(uf.root(e as int) == q);
                    }
                }
            }
            e = e + 1;
        }
        let mut e: usize = 0;
        while e < ne
            invariant
                uf.wf(),
                uf.len() == ne,
                ev@.len() == ne,
                old(ev)@.len() == ne,
                rv@.len() == ne,
                e <= ne,
                forall|q: int| 0 <= q < ne ==> #[trigger] ev@[q] <= 2,
                forall|q: int| 0 <= q < ne && #[trigger] ev@[q] == 2 ==> old(ev)@[q] == 2,
                forall|q: int| e <= q < ne ==> #[trigger] ev@[q] == old(ev)@[q],
                forall|q: int| 0 <= q < ne && #[trigger] root_fixed(old(ev)@, *uf, q) ==> rv@[q] is Some,
                forall|q: int| 0 <= q < e && old(ev)@[q] == 2 && #[trigger] root_fixed(old(ev)@, *uf, uf.root(q)) ==> ev@[q] <= 1,
                forced_grows(old(forced)@, forced@, old(ev)@),
                logged(old(ev)@, ev@, forced@),
                forall|q: int| 0 <= q < ne && (#[trigger] rv@[q]) is Some ==> rv@[q].unwrap() <= 1,
                forall|sol: Seq<EdgeState>|
                    #[trigger] phase_ok(old(ev)@, *uf, old(forced)@, sol) ==> forall|q: int|
                        0 <= q < ne && (#[trigger] rv@[q]) is Some ==> rv@[q].unwrap() as int == cut_bit(sol[q]),
                forall|sol: Seq<EdgeState>| #[trigger] phase_ok(old(ev)@, *uf, old(forced)@, sol) ==> phase_ok(ev@, *uf, forced@, sol),
            decreases ne - e,
        {
            if ev[e] > 1 {
                let (root, p) = uf.find(e);
                if let Some(rr) = rv[root] {
                    proof {
                        lemma_xor_bits(p, rr);
                        uf.lemma_parity_bit(e as int);
                    }
                    let v = p ^ rr;
                    let st = bit_state(v);
                    let ghost ev0 = ev@;
                    let ghost f0 = forced@;
                    ev.set(e, v);
                    forced.push((e, st));
                    proof {
                        assert forall|sol: Seq<EdgeState>| #[trigger] phase_ok(old(ev)@, *uf, old(forced)@, sol) implies phase_ok(
                            ev@,
                            *uf,
                            forced@,
                            sol,
                        ) by {
                            assert(phase_ok(ev0, *uf, f0, sol));
                            assert(uf.related(e as int, root as int));
                            assert(rv@[root as int] is Some);
                            assert(v as int == cut_bit(sol[e as int]));
                            assert(sol[e as int] != EdgeState::Unknown);
                            assert forall|q: int| 0 <= q < ev@.len() && #[trigger] ev@[q] <= 1 implies ev@[q] as int == cut_bit(
                                sol[q],
                            ) by {
                                if q != e as int {
                                    assert(ev@[q] == ev0[q]);
                                }
                            }
                            assert forall|i: int| 0 <= i < forced@.len() implies (#[trigger] forced@[i]).0 < sol.len()
                                && sol[forced@[i].0 as int] == forced@[i].1 by {
                                if i < f0.len() {
                                    assert(forced@[i] == f0[i]);
                                }
                            }
                        }
                        assert forall|i: int| 0 <= i < old(forced)@.len() implies #[trigger] forced@[i] == old(forced)@[i] by {
                            assert(forced@[i] == f0[i]);
                        }
                        assert forall|q: int| 0 <= q < ev@.len() && old(ev)@[q] == 2 && #[trigger] ev@[q] <= 1 implies exists|k: int|
                            0 <= k < forced@.len() && (#[trigger] forced@[k]).0 == q by {
                            if q == e as int {
                                assert(forced@[f0.len() as int].0 == q);
                            } else {
                                let k = choose|k: int| 0 <= k < f0.len() && (#[trigger] f0[k]).0 == q;
                                assert(forced@[k] == f0[k]);
                            }
                        }
                        assert forall|i: int| old(forced)@.len() <= i < forced@.len() implies (#[trigger] forced@[i]).0 < old(
                            ev,
                        )@.len() && old(ev)@[forced@[i].0 as int] == 2 by {
                            if i < f0.len() {
                                assert(forced@[i] == f0[i]);
                            } else {
                                assert(ev0[e as int] == old(ev)@[e as int]);
                            }
                        }
                    }
                }
            }
            e = e + 1;
        }
        Ok(())
    }

    /// Watchtower edge parity: the parity constraints of the watchtower
    /// clues (see `parity_constraint`) are run through a union-find with
    /// parity over the edges in three phases (see `vertex_parity_phase1`,
    /// `_phase2`, `_phase3`), and the edges they decide are set.  Sound:
    /// every completion of the edges that meets all parity constraints makes
    /// the call succeed and still completes the edges it leaves.  The result
    /// is whether any edge was decided.
    pub fn propagate_vertex_edge_parity(&mut self) -> (r: Result<bool, ()>)
        requires
            old(self).trail_ok(),
            old(self).clues_in_range(),
        ensures
            final(self).trail_ok(),
            final(self).same_context(&*old(self)),
            final(self).pre_marked == old(self).pre_marked,
            final(self).is_pre_cut == old(self).is_pre_cut,
            forall|e: int|
                0 <= e < old(self).edges@.len() && old(self).edges@[e] != EdgeState::Unknown
                    ==> #[trigger] final(self).edges@[e] == old(self).edges@[e],
            r matches Ok(progress) ==> progress == (final(self).edges@ != old(self).edges@),
            forall|sol: Seq<EdgeState>|
                completes(old(self).edges@, sol) && #[trigger] old(self).parity_holds(sol) ==> r is Ok && completes(
                    final(self).edges@,
                    sol,
                ),
            r is Ok ==> old(self).short_parity_decided(old(self).edges@, final(self).edges@),
    {
        if self.vertex_clues.len() == 0 {
            return Ok(false);
        }
        proof {
            lemma_wf_bounds(self.grid);
        }
        let ne = self.grid.num_edges();
        let constraints = self.collect_vertex_parity_constraints();
        if constraints.len() == 0 {
            return Ok(false);
        }
        let mut uf = ParityUF::new(ne);
        let mut ev: Vec<u8> = Vec::new();
        let mut e: usize = 0;
        while e < ne
            invariant
                self.trail_ok(),
                ne == self.grid.n_edges(),
                e <= ne,
                ev@.len() == e,
                forall|q: int|
                    0 <= q < e ==> #[trigger] ev@[q] == match self.edges@[q] {
                        EdgeState::Cut => 1u8,
                        EdgeState::Uncut => 0u8,
                        EdgeState::Unknown => 2u8,
                    },
            decreases ne - e,
        {
            let code: u8 = match self.edges[e] {
                EdgeState::Cut => 1,
                EdgeState::Uncut => 0,
                EdgeState::Unknown => 2,
            };
            ev.push(code);
            e = e + 1;
        }
        let mut forced: Vec<(EdgeId, EdgeState)> = Vec::new();
        let ghost ev0 = ev@;
        let ghost list = self.parity_list(self.vertex_clues@.len() as int);
        proof {
            assert(ev0 =~= edge_codes(old(self).edges@));
            assert forall|sol: Seq<EdgeState>|
                completes(old(self).edges@, sol) && #[trigger] old(self).parity_holds(sol) implies phase_ok(
                ev@,
                uf,
                forced@,
                sol,
            ) && cons_hold(constraints@, sol) by {
                assert forall|x: int, y: int|
                    0 <= x < uf.len() && 0 <= y < uf.len() && #[trigger] uf.related(x, y) implies (cut_bit(sol[x]) + cut_bit(
                    sol[y],
                )) % 2 == uf.relation(x, y) by {
                    assert(x == y);
                    assert(uf.parity(x) == 0);
                }
                assert forall|i: int| 0 <= i < constraints@.len() implies count_in_state(
                    sol,
                    (#[trigger] constraints@[i]).0@,
                    EdgeState::Cut,
                ) % 2 == constraints@[i].1 as int by {
                    assert(constraints@[i].0@ == list[i].0);
                    assert(count_in_state(sol, list[i].0, EdgeState::Cut) % 2 == list[i].1 as int);
                }
            }
        }
        let ghost uf0 = uf;
        let ghost f0 = forced@;
        if Self::vertex_parity_phase1(&constraints, &mut uf, &mut ev, &mut forced).is_err() {
            return Err(());
        }
        let ghost ev1 = ev@;
        let ghost uf1 = uf;
        let ghost f1 = forced@;
        if Self::vertex_parity_phase2(&constraints, &mut uf, &mut ev, &mut forced).is_err() {
            return Err(());
        }
        let ghost ev2 = ev@;
        let ghost uf2 = uf;
        let ghost f2 = forced@;
        if Self::vertex_parity_phase3(ne, &uf, &mut ev, &mut forced).is_err() {
            return Err(());
        }
        proof {
            assert forall|i: int| 0 <= i < forced@.len() implies (#[trigger] forced@[i]).0 < ne && ev0[forced@[i].0 as int]
                == 2 && forced@[i].1 != EdgeState::Unknown by {
                if i >= f2.len() {
                } else if i >= f1.len() {
                    assert(forced@[i] == f2[i]);
                    assert(ev1[f2[i].0 as int] == 2);
                } else {
                    assert(forced@[i] == f2[i]);
                    assert(f2[i] == f1[i]);
                    assert(ev0[f1[i].0 as int] == 2);
                }
            }
        }
        proof {
            assert forall|e: int| 0 <= e < ne && ev0[e] == 2 && #[trigger] ev@[e] <= 1 implies exists|k: int|
                0 <= k < forced@.len() && (#[trigger] forced@[k]).0 == e by {
                if ev2[e] == 2 {
                } else if ev1[e] == 2 {
                    let k = choose|k: int| 0 <= k < f2.len() && (#[trigger] f2[k]).0 == e;
                    assert(forced@[k] == f2[k]);
                } else {
                    let k = choose|k: int| 0 <= k < f1.len() && (#[trigger] f1[k]).0 == e;
                    assert(f2[k] == f1[k]);
                    assert(forced@[k] == f2[k]);
                }
            }
            assert forall|ci: int| 0 <= ci < constraints@.len() && unknowns(ev0, (#[trigger] constraints@[ci]).0@).len() <= 1 implies forall|q: int|
                0 <= q < constraints@[ci].0@.len() ==> ev@[#[trigger] constraints@[ci].0@[q] as int] <= 1 by {
                let es = constraints@[ci].0@;
                assert(unknowns(ev1, es).len() == 0);
                assert(forall|i: int| 0 <= i < es.len() ==> (#[trigger] es[i]) < ne);
                lemma_unknowns_mono(ev1, ev@, es);
                lemma_unknowns_empty(ev@, es);
            }
            assert(list.len() == constraints@.len());
        }
        if forced.len() == 0 {
            proof {
                assert forall|k: int|
                    0 <= k < list.len() && unknowns(edge_codes(old(self).edges@), (#[trigger] list[k]).0).len() <= 1 implies forall|q: int|
                    0 <= q < list[k].0.len() ==> self.edges@[#[trigger] list[k].0[q] as int] != EdgeState::Unknown by {
                    assert(list[k].0 == constraints@[k].0@);
                    assert forall|q: int| 0 <= q < list[k].0.len() implies self.edges@[#[trigger] list[k].0[q] as int]
                        != EdgeState::Unknown by {
                        let e = constraints@[k].0@[q] as int;
                        assert(ev@[e] <= 1);
                    }
                }
            }
            return Ok(false);
        }
        let mut progress = false;
        let mut i: usize = 0;
        while i < forced.len()
            invariant
                self.trail_ok(),
                self.same_context(&*old(self)),
                self.pre_marked == old(self).pre_marked,
                self.is_pre_cut == old(self).is_pre_cut,
                ne == old(self).edges@.len(),
                self.edges@.len() == ne,
                ev0.len() == ne,
                forall|q: int| 0 <= q < ne ==> (#[trigger] ev0[q] == 2) == (old(self).edges@[q] == EdgeState::Unknown),
                forall|e: int|
                    0 <= e < old(self).edges@.len() && old(self).edges@[e] != EdgeState::Unknown
                        ==> #[trigger] self.edges@[e] == old(self).edges@[e],
                i <= forced@.len(),
                forall|k: int| 0 <= k < forced@.len() ==> (#[trigger] forced@[k]).0 < ne && ev0[forced@[k].0 as int] == 2
                    && forced@[k].1 != EdgeState::Unknown,
                progress == (i > 0),
                forall|k: int| 0 <= k < i ==> self.edges@[(#[trigger] forced@[k]).0 as int] != EdgeState::Unknown,
                !progress ==> self.edges@ == old(self).edges@,
                progress ==> decided_some(old(self).edges@, self.edges@),
                forall|sol: Seq<EdgeState>|
                    completes(old(self).edges@, sol) && #[trigger] old(self).parity_holds(sol) ==> completes(self.edges@, sol)
                        && forced_ok(forced@, sol),
            decreases forced@.len() - i,
        {
            let (eid, st) = forced[i];
            let ghost cur = self.edges@;
            let ok = self.set_edge(eid, st);
            if !ok {
                proof {
                    assert forall|sol: Seq<EdgeState>|
                        completes(old(self).edges@, sol) && #[trigger] old(self).parity_holds(sol) implies false by {
                        assert(forced_ok(forced@, sol));
                        assert(sol[eid as int] == st);
                    }
                }
                return Err(());
            }
            proof {
                assert(forced@[i as int] == (eid, st));
                assert forall|k: int| 0 <= k < i + 1 implies self.edges@[(#[trigger] forced@[k]).0 as int] != EdgeState::Unknown by {
                    if forced@[k].0 != eid {
                        assert(self.edges@[forced@[k].0 as int] == cur[forced@[k].0 as int]);
                    }
                }
                if !progress {
                    assert(cur[eid as int] == EdgeState::Unknown);
                    assert(self.edges@[eid as int] == st);
                    assert(decided_some(old(self).edges@, self.edges@));
                } else {
                    let w = choose|w: int|
                        0 <= w < old(self).edges@.len() && old(self).edges@[w] == EdgeState::Unknown
                            && #[trigger] cur[w] != EdgeState::Unknown;
                    assert(self.edges@[w] == cur[w]);
                }
                assert forall|sol: Seq<EdgeState>|
                    completes(old(self).edges@, sol) && #[trigger] old(self).parity_holds(sol) implies completes(
                    self.edges@,
                    sol,
                ) by {
                    assert(forced_ok(forced@, sol));
                    assert(sol[eid as int] == st);
                    assert forall|x: int| 0 <= x < sol.len() && self.edges@[x] != EdgeState::Unknown implies #[trigger] sol[x]
                        == self.edges@[x] by {
                        if x != eid as int {
                            assert(self.edges@[x] == cur[x]);
                        }
                    }
                }
            }
            progress = true;
            i = i + 1;
        }
        proof {
            let w = choose|w: int|
                0 <= w < old(self).edges@.len() && old(self).edges@[w] == EdgeState::Unknown
                    && #[trigger] self.edges@[w] != EdgeState::Unknown;
            assert(self.edges@[w] != old(self).edges@[w]);
            assert forall|k: int|
                0 <= k < list.len() && unknowns(edge_codes(old(self).edges@), (#[trigger] list[k]).0).len() <= 1 implies forall|q: int|
                0 <= q < list[k].0.len() ==> self.edges@[#[trigger] list[k].0[q] as int] != EdgeState::Unknown by {
                assert(list[k].0 == constraints@[k].0@);
                assert forall|q: int| 0 <= q < list[k].0.len() implies self.edges@[#[trigger] list[k].0[q] as int]
                    != EdgeState::Unknown by {
                    let e = constraints@[k].0@[q] as int;
                    assert(ev@[e] <= 1);
                    if ev0[e] == 2 {
                        let j = choose|j: int| 0 <= j < forced@.len() && (#[trigger] forced@[j]).0 == e;
                    }
                }
            }
        }
        Ok(progress)
    }
}

} // verus!
