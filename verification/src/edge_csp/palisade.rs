//! Fence (palisade) propagation.  A fence clue fixes which sides of its
//! cell are region borders, up to rotation: each clued cell keeps a domain
//! of side masks (bit 0 north, 1 south, 2 west, 3 east; a set bit is a cut
//! side, and a side on the grid border counts as cut).  Domains are pruned
//! against the decided edges and against each other across shared edges,
//! and an edge is decided once every mask left agrees on it.

use vstd::prelude::*;
use crate::edge_csp::grid::lemma_wf_bounds;
use crate::edge_csp::prop::{side_ok, spec_star_mask_ok, star_list, star_mask_ok, star_placements};
use crate::edge_csp::solver::Solver;
use crate::edge_csp::types::{
    CellClue,
    CellId,
    EdgeId,
    EdgeState,
    PalisadeKind,
    clue_cell,
    mask_turns,
    palisade_base_mask,
};

verus! {

/// `sol` decides every edge and agrees with every decided edge of `edges`.
pub open spec fn completes(edges: Seq<EdgeState>, sol: Seq<EdgeState>) -> bool {
    &&& sol.len() == edges.len()
    &&& forall|e: int| 0 <= e < sol.len() ==> #[trigger] sol[e] != EdgeState::Unknown
    &&& forall|e: int| 0 <= e < sol.len() && edges[e] != EdgeState::Unknown ==> #[trigger] sol[e] == edges[e]
}

/// Whether the side `o` is a border under `sol` (no edge: the grid border).
pub open spec fn side_cut(sol: Seq<EdgeState>, o: Option<EdgeId>) -> bool {
    match o {
        None => true,
        Some(e) => sol[e as int] == EdgeState::Cut,
    }
}

/// The mask with bit `k` set exactly when `bk` holds.
pub open spec fn mask4(b0: bool, b1: bool, b2: bool, b3: bool) -> u8 {
    (if b0 {
        1u8
    } else {
        0u8
    }) | (if b1 {
        2u8
    } else {
        0u8
    }) | (if b2 {
        4u8
    } else {
        0u8
    }) | (if b3 {
        8u8
    } else {
        0u8
    })
}

/// The side mask of a cell with sides `es` under `sol`.
pub open spec fn sol_mask(sol: Seq<EdgeState>, es: [Option<EdgeId>; 4]) -> u8 {
    mask4(side_cut(sol, es[0]), side_cut(sol, es[1]), side_cut(sol, es[2]), side_cut(sol, es[3]))
}

/// Bit `k` of mask `m` is set.
pub open spec fn bit_set(m: u8, k: int) -> bool {
    (m >> (k as u8)) & 1 == 1
}

/// `m` is one of the quarter turns of `kind`'s pattern.
pub open spec fn kind_allows(kind: PalisadeKind, m: u8) -> bool {
    exists|k: nat| k < 4 && #[trigger] mask_turns(palisade_base_mask(kind), k) == m
}

/// The sum of the domain sizes.
pub open spec fn total_len(doms: Seq<Vec<u8>>) -> nat
    decreases doms.len(),
{
    if doms.len() == 0 {
        0
    } else {
        total_len(doms.drop_last()) + doms.last()@.len()
    }
}

proof fn lemma_mask4_bits(b0: bool, b1: bool, b2: bool, b3: bool)
    ensures
        bit_set(mask4(b0, b1, b2, b3), 0) == b0,
        bit_set(mask4(b0, b1, b2, b3), 1) == b1,
        bit_set(mask4(b0, b1, b2, b3), 2) == b2,
        bit_set(mask4(b0, b1, b2, b3), 3) == b3,
{
    let m = mask4(b0, b1, b2, b3);
    assert(((m >> 0u8) & 1 == 1) == b0) by (bit_vector)
        requires
            m == mask4(b0, b1, b2, b3),
    ;
    assert(((m >> 1u8) & 1 == 1) == b1) by (bit_vector)
        requires
            m == mask4(b0, b1, b2, b3),
    ;
    assert(((m >> 2u8) & 1 == 1) == b2) by (bit_vector)
        requires
            m == mask4(b0, b1, b2, b3),
    ;
    assert(((m >> 3u8) & 1 == 1) == b3) by (bit_vector)
        requires
            m == mask4(b0, b1, b2, b3),
    ;
}

/// Bit `k` of a cell's mask under `sol` says whether side `k` is cut.
pub proof fn lemma_sol_mask_bit(sol: Seq<EdgeState>, es: [Option<EdgeId>; 4], k: int)
    requires
        0 <= k < 4,
    ensures
        bit_set(sol_mask(sol, es), k) == side_cut(sol, es[k]),
{
    lemma_mask4_bits(side_cut(sol, es[0]), side_cut(sol, es[1]), side_cut(sol, es[2]), side_cut(sol, es[3]));
}

proof fn lemma_total_update(doms: Seq<Vec<u8>>, i: int, v: Vec<u8>)
    requires
        0 <= i < doms.len(),
    ensures
        total_len(doms.update(i, v)) == total_len(doms) - doms[i]@.len() + v@.len(),
    decreases doms.len(),
{
    let d2 = doms.update(i, v);
    if i == doms.len() - 1 {
        assert(d2.drop_last() == doms.drop_last());
    } else {
        assert(d2.drop_last() == doms.drop_last().update(i, v));
        lemma_total_update(doms.drop_last(), i, v);
    }
}

proof fn lemma_star_list_grow(kind: PalisadeKind, states: [EdgeState; 4], k1: int, k2: int, m: u8)
    requires
        0 <= k1 <= k2,
        star_list(kind, states, k1).contains(m),
    ensures
        star_list(kind, states, k2).contains(m),
    decreases k2 - k1,
{
    if k1 < k2 {
        let prev = star_list(kind, states, k1);
        let j = choose|j: int| 0 <= j < prev.len() && prev[j] == m;
        let next = star_list(kind, states, k1 + 1);
        assert(next[j] == m);
        lemma_star_list_grow(kind, states, k1 + 1, k2, m);
    }
}

/// Every turn of the pattern that agrees with `states` is listed.
proof fn lemma_star_list_has(kind: PalisadeKind, states: [EdgeState; 4], j: int)
    requires
        0 <= j < 4,
        spec_star_mask_ok(mask_turns(palisade_base_mask(kind), j as nat), states),
    ensures
        star_list(kind, states, 4).contains(mask_turns(palisade_base_mask(kind), j as nat)),
    decreases j,
{
    let m = mask_turns(palisade_base_mask(kind), j as nat);
    if crate::edge_csp::prop::repeats_earlier(kind, j) {
        let i = choose|i: int|
            0 <= i < j && #[trigger] mask_turns(palisade_base_mask(kind), i as nat) == mask_turns(
                palisade_base_mask(kind),
                j as nat,
            );
        lemma_star_list_has(kind, states, i);
    } else {
        let l = star_list(kind, states, j + 1);
        assert(l[l.len() - 1] == m);
        lemma_star_list_grow(kind, states, j + 1, 4, m);
    }
}

/// Keeps the masks of `dom` whose bit `k` is `keep1` when set and `keep0`
/// when clear, in order.
pub open spec fn bit_filter(dom: Seq<u8>, k: int, keep0: bool, keep1: bool) -> Seq<u8> {
    dom.filter(|m: u8| if bit_set(m, k) {
        keep1
    } else {
        keep0
    })
}

fn filter_by_bit(dom: &Vec<u8>, k: usize, keep0: bool, keep1: bool) -> (out: Vec<u8>)
    requires
        k < 4,
    ensures
        forall|m: u8| #[trigger] out@.contains(m) <==> (dom@.contains(m) && (if bit_set(m, k as int) {
            keep1
        } else {
            keep0
        })),
        out@.len() <= dom@.len(),
        out@.len() == dom@.len() ==> out@ == dom@,
{
    let mut out: Vec<u8> = Vec::new();
    let mut i: usize = 0;
    while i < dom.len()
        invariant
            k < 4,
            i <= dom@.len(),
            out@.len() <= i,
            out@.len() == i ==> out@ == dom@.take(i as int),
            forall|m: u8| #[trigger] out@.contains(m) <==> (dom@.take(i as int).contains(m) && (if bit_set(
                m,
                k as int,
            ) {
                keep1
            } else {
                keep0
            })),
        decreases dom@.len() - i,
    {
        let m = dom[i];
        let ghost o0 = out@;
        let ghost t0 = dom@.take(i as int);
        let ghost t1 = dom@.take(i + 1);
        proof {
            assert(t1 == t0.push(m));
        }
        let set = (m >> (k as u8)) & 1 == 1;
        if (set && keep1) || (!set && keep0) {
            out.push(m);
            proof {
                if o0.len() == i {
                    assert(out@ == t1);
                }
            }
        }
        proof {
            assert forall|x: u8| #[trigger] out@.contains(x) <==> (t1.contains(x) && (if bit_set(x, k as int) {
                keep1
            } else {
                keep0
            })) by {
                if out@.contains(x) {
                    let q = choose|q: int| 0 <= q < out@.len() && out@[q] == x;
                    if q < o0.len() {
                        assert(o0[q] == x);
                        assert(o0.contains(x));
                        let p = choose|p: int| 0 <= p < t0.len() && t0[p] == x;
                        assert(t1[p] == x);
                    } else {
                        assert(x == m);
                        assert(t1[i as int] == m);
                    }
                }
                if t1.contains(x) && (if bit_set(x, k as int) {
                    keep1
                } else {
                    keep0
                }) {
                    let p = choose|p: int| 0 <= p < t1.len() && t1[p] == x;
                    if p < i {
                        assert(t0[p] == x);
                        assert(o0.contains(x));
                        let q = choose|q: int| 0 <= q < o0.len() && o0[q] == x;
                        assert(out@[q] == x);
                    } else {
                        assert(x == m);
                        assert(out@[out@.len() - 1] == m);
                    }
                }
            }
        }
        i = i + 1;
    }
    proof {
        assert(dom@.take(i as int) == dom@);
    }
    out
}

/// Whether some mask of `dom` has bit `k` clear, and whether some has it set.
fn bits_seen(dom: &Vec<u8>, k: usize) -> (r: (bool, bool))
    requires
        k < 4,
    ensures
        r.0 == exists|m: u8| #[trigger] dom@.contains(m) && !bit_set(m, k as int),
        r.1 == exists|m: u8| #[trigger] dom@.contains(m) && bit_set(m, k as int),
{
    let mut has0 = false;
    let mut has1 = false;
    let mut i: usize = 0;
    while i < dom.len()
        invariant
            k < 4,
            i <= dom@.len(),
            has0 == exists|j: int| 0 <= j < i && !bit_set(#[trigger] dom@[j], k as int),
            has1 == exists|j: int| 0 <= j < i && bit_set(#[trigger] dom@[j], k as int),
        decreases dom@.len() - i,
    {
        let m = dom[i];
        if (m >> (k as u8)) & 1 == 1 {
            has1 = true;
        } else {
            has0 = true;
        }
        i = i + 1;
    }
    proof {
        if has0 {
            let j = choose|j: int| 0 <= j < i && !bit_set(#[trigger] dom@[j], k as int);
            assert(dom@.contains(dom@[j]));
        }
        if exists|m: u8| #[trigger] dom@.contains(m) && !bit_set(m, k as int) {
            let m = choose|m: u8| #[trigger] dom@.contains(m) && !bit_set(m, k as int);
            let j = choose|j: int| 0 <= j < dom@.len() && dom@[j] == m;
            assert(!bit_set(dom@[j], k as int));
        }
        if has1 {
            let j = choose|j: int| 0 <= j < i && bit_set(#[trigger] dom@[j], k as int);
            assert(dom@.contains(dom@[j]));
        }
        if exists|m: u8| #[trigger] dom@.contains(m) && bit_set(m, k as int) {
            let m = choose|m: u8| #[trigger] dom@.contains(m) && bit_set(m, k as int);
            let j = choose|j: int| 0 <= j < dom@.len() && dom@[j] == m;
            assert(bit_set(dom@[j], k as int));
        }
    }
    (has0, has1)
}

/// Shared-edge links between fence domains: `partner[si][k] = (ti, tk)`
/// says that side `k` of domain `si` and side `tk` of domain `ti` are the
/// same edge.
pub open spec fn partner_ok(
    partner: Seq<[Option<(usize, usize)>; 4]>,
    sides: Seq<[Option<EdgeId>; 4]>,
) -> bool {
    &&& partner.len() == sides.len()
    &&& forall|si: int, k: int|
        0 <= si < partner.len() && 0 <= k < 4 && (#[trigger] partner[si][k]) is Some ==> {
            let (ti, tk) = partner[si][k].unwrap();
            &&& ti < sides.len()
            &&& tk < 4
            &&& sides[si][k] is Some
            &&& sides[ti as int][tk as int] == sides[si][k]
        }
}

/// Mask choices `ms`, one per domain, that lie in their domains and agree
/// on every shared edge.
pub open spec fn choice_fits(
    ms: Seq<u8>,
    doms: Seq<Vec<u8>>,
    partner: Seq<[Option<(usize, usize)>; 4]>,
) -> bool {
    &&& ms.len() == doms.len()
    &&& forall|si: int| 0 <= si < ms.len() ==> #[trigger] doms[si]@.contains(ms[si])
    &&& forall|si: int, k: int|
        0 <= si < partner.len() && 0 <= k < 4 && (#[trigger] partner[si][k]) is Some ==> bit_set(ms[si], k)
            == bit_set(ms[partner[si][k].unwrap().0 as int], partner[si][k].unwrap().1 as int)
}

/// Some mask of `dom` has bit `k` equal to `b`.
pub open spec fn has_bit(dom: Seq<u8>, k: int, b: bool) -> bool {
    exists|m: u8| #[trigger] dom.contains(m) && bit_set(m, k) == b
}

/// Side `k` of domain `si` is settled: when it is shared, the domain is
/// not empty and it can show a bit value on that edge exactly when its
/// partner can.
pub open spec fn arc_settled_at(doms: Seq<Vec<u8>>, partner: Seq<[Option<(usize, usize)>; 4]>, si: int, k: int) -> bool {
    partner[si][k] is Some ==> {
        let (ti, tk) = partner[si][k].unwrap();
        &&& doms[si]@.len() > 0
        &&& has_bit(doms[si]@, k, true) == has_bit(doms[ti as int]@, tk as int, true)
        &&& has_bit(doms[si]@, k, false) == has_bit(doms[ti as int]@, tk as int, false)
    }
}

/// The domains hold the same masks in the same order.
pub open spec fn same_doms(a: Seq<Vec<u8>>, b: Seq<Vec<u8>>) -> bool {
    &&& a.len() == b.len()
    &&& forall|i: int| 0 <= i < a.len() ==> (#[trigger] a[i])@ == b[i]@
}

/// Every shared side of every domain is settled.
pub open spec fn arcs_settled(doms: Seq<Vec<u8>>, partner: Seq<[Option<(usize, usize)>; 4]>) -> bool {
    forall|si: int, k: int| 0 <= si < doms.len() && 0 <= k < 4 ==> #[trigger] arc_settled_at(doms, partner, si, k)
}

/// Arc consistency on shared edges: each domain keeps the masks whose bit
/// on a shared edge some mask of the partner domain can mirror.  Fails when
/// two partners have no value in common.  Every choice of masks that agrees
/// on shared edges survives; the result is whether any domain shrank.
fn star_consensus(partner: &Vec<[Option<(usize, usize)>; 4]>, doms: &mut Vec<Vec<u8>>) -> (r: Result<bool, ()>)
    requires
        partner@.len() == old(doms)@.len(),
        forall|si: int, k: int|
            0 <= si < partner@.len() && 0 <= k < 4 && (#[trigger] partner@[si][k]) is Some ==> partner@[si][k].unwrap().0
                < partner@.len() && partner@[si][k].unwrap().1 < 4,
    ensures
        final(doms)@.len() == old(doms)@.len(),
        forall|si: int, m: u8|
            0 <= si < final(doms)@.len() && #[trigger] final(doms)@[si]@.contains(m) ==> old(doms)@[si]@.contains(m),
        total_len(final(doms)@) <= total_len(old(doms)@),
        r == Ok::<bool, ()>(true) ==> total_len(final(doms)@) < total_len(old(doms)@),
        forall|ms: Seq<u8>| #[trigger] choice_fits(ms, old(doms)@, partner@) ==> r is Ok && choice_fits(
            ms,
            final(doms)@,
            partner@,
        ),
        r == Ok::<bool, ()>(false) ==> same_doms(final(doms)@, old(doms)@) && arcs_settled(old(doms)@, partner@),
{
    let mut changed = false;
    let mut si: usize = 0;
    while si < doms.len()
        invariant
            partner@.len() == doms@.len(),
            doms@.len() == old(doms)@.len(),
            forall|a: int, k: int|
                0 <= a < partner@.len() && 0 <= k < 4 && (#[trigger] partner@[a][k]) is Some ==> partner@[a][k].unwrap().0
                    < partner@.len() && partner@[a][k].unwrap().1 < 4,
            si <= doms@.len(),
            forall|a: int, m: u8| 0 <= a < doms@.len() && #[trigger] doms@[a]@.contains(m) ==> old(doms)@[a]@.contains(m),
            total_len(doms@) <= total_len(old(doms)@),
            changed ==> total_len(doms@) < total_len(old(doms)@),
            forall|ms: Seq<u8>| #[trigger] choice_fits(ms, old(doms)@, partner@) ==> choice_fits(ms, doms@, partner@),
            !changed ==> same_doms(doms@, old(doms)@),
            !changed ==> forall|a: int, kk: int| 0 <= a < si && 0 <= kk < 4 ==> #[trigger] arc_settled_at(old(doms)@, partner@, a, kk),
        decreases old(doms)@.len() - si,
    {
        let mut k: usize = 0;
        while k < 4
            invariant
                partner@.len() == doms@.len(),
                doms@.len() == old(doms)@.len(),
                forall|a: int, kk: int|
                    0 <= a < partner@.len() && 0 <= kk < 4 && (#[trigger] partner@[a][kk]) is Some ==> partner@[a][kk].unwrap().0
                        < partner@.len() && partner@[a][kk].unwrap().1 < 4,
                si < doms@.len(),
                k <= 4,
                forall|a: int, m: u8| 0 <= a < doms@.len() && #[trigger] doms@[a]@.contains(m) ==> old(doms)@[a]@.contains(m),
                total_len(doms@) <= total_len(old(doms)@),
                changed ==> total_len(doms@) < total_len(old(doms)@),
                forall|ms: Seq<u8>| #[trigger] choice_fits(ms, old(doms)@, partner@) ==> choice_fits(ms, doms@, partner@),
                !changed ==> same_doms(doms@, old(doms)@),
                !changed ==> forall|a: int, kk: int|
                    (0 <= a < si && 0 <= kk < 4) || (a == si && 0 <= kk < k) ==> #[trigger] arc_settled_at(old(doms)@, partner@, a, kk),
            decreases 4 - k,
        {
            let link = partner[si][k];
            let ghost ch0 = changed;
            let ghost dstart = doms@;
            if let Some((ti, tk)) = link {
                let (s0, s1) = bits_seen(&doms[si], k);
                let (t0, t1) = bits_seen(&doms[ti], tk);
                let keep0 = s0 && t0;
                let keep1 = s1 && t1;
                if !keep0 && !keep1 {
                    proof {
                        assert forall|ms: Seq<u8>| #[trigger] choice_fits(ms, old(doms)@, partner@) implies false by {
                            assert(choice_fits(ms, doms@, partner@));
                            assert(partner@[si as int][k as int] is Some);
                            assert(doms@[si as int]@.contains(ms[si as int]));
                            assert(doms@[ti as int]@.contains(ms[ti as int]));
                        }
                    }
                    return Err(());
                }
                let ghost d0 = doms@;
                let b0 = doms[si].len();
                let ns = filter_by_bit(&doms[si], k, keep0, keep1);
                let shrank_s = ns.len() != b0;
                doms.set(si, ns);
                proof {
                    lemma_total_update(d0, si as int, ns);
                }
                let ghost d1 = doms@;
                let b1 = doms[ti].len();
                let nt = filter_by_bit(&doms[ti], tk, keep0, keep1);
                let shrank_t = nt.len() != b1;
                doms.set(ti, nt);
                proof {
                    lemma_total_update(d1, ti as int, nt);
                    assert forall|a: int, m: u8| 0 <= a < doms@.len() && #[trigger] doms@[a]@.contains(m) implies old(
                        doms,
                    )@[a]@.contains(m) by {
                        if a == ti {
                            assert(d1[a]@.contains(m));
                        }
                        if a == si && a != ti {
                            assert(d0[a]@.contains(m));
                        }
                        if a != si && a != ti {
                            assert(d0[a] == doms@[a]);
                        }
                        if a == si && a == ti {
                            assert(d0[a]@.contains(m));
                        }
                    }
                    assert forall|ms: Seq<u8>| #[trigger] choice_fits(ms, old(doms)@, partner@) implies choice_fits(
                        ms,
                        doms@,
                        partner@,
                    ) by {
                        assert(choice_fits(ms, d0, partner@));
                        assert(partner@[si as int][k as int] is Some);
                        let xs = ms[si as int];
                        let xt = ms[ti as int];
                        assert(bit_set(xs, k as int) == bit_set(xt, tk as int));
                        assert(d0[si as int]@.contains(xs));
                        assert(d0[ti as int]@.contains(xt));
                        if bit_set(xs, k as int) {
                            assert(s1);
                            assert(t1) by {
                                if si == ti {
                                    assert(d0[ti as int]@.contains(xt));
                                }
                            }
                        } else {
                            assert(s0);
                            assert(t0);
                        }
                        assert(d1[si as int]@.contains(xs));
                        assert forall|a: int| 0 <= a < ms.len() implies #[trigger] doms@[a]@.contains(ms[a]) by {
                            if a == ti {
                                assert(d1[ti as int]@.contains(xt)) by {
                                    if si != ti {
                                        assert(d1[ti as int] == d0[ti as int]);
                                    }
                                }
                            } else if a == si {
                                assert(doms@[a] == d1[a]);
                            } else {
                                assert(doms@[a] == d0[a]);
                                assert(d0[a]@.contains(ms[a]));
                            }
                        }
                    }
                }
                if shrank_s || shrank_t {
                    changed = true;
                }
                proof {
                    if !changed {
                        assert(!ch0 && !shrank_s && !shrank_t);
                        assert(same_doms(d0, old(doms)@));
                        assert(ns@ == d0[si as int]@);
                        assert(nt@ == d1[ti as int]@);
                        assert forall|a: int| 0 <= a < doms@.len() implies (#[trigger] doms@[a])@ == old(doms)@[a]@ by {
                            if a != si && a != ti {
                                assert(doms@[a] == d0[a]);
                            }
                        }
                    }
                }
                if doms[si].len() == 0 || doms[ti].len() == 0 {
                    proof {
                        assert forall|ms: Seq<u8>| #[trigger] choice_fits(ms, old(doms)@, partner@) implies false by {
                            assert(choice_fits(ms, doms@, partner@));
                            assert(doms@[si as int]@.contains(ms[si as int]));
                            assert(doms@[ti as int]@.contains(ms[ti as int]));
                        }
                    }
                    return Err(());
                }
            }
            proof {
                if !changed {
                    if link is Some {
                        let (ti, tk) = link.unwrap();
                        assert(partner@[si as int][k as int] == link);
                        assert(arc_settled_at(old(doms)@, partner@, si as int, k as int)) by {
                            let ds = old(doms)@[si as int]@;
                            let dt = old(doms)@[ti as int]@;
                            assert(ds.len() > 0);
                            assert(has_bit(ds, k as int, true) ==> has_bit(dt, tk as int, true)) by {
                                if has_bit(ds, k as int, true) {
                                    let m = choose|m: u8| ds.contains(m) && bit_set(m, k as int) == true;
                                }
                            }
                        }
                    } else {
                        assert(arc_settled_at(old(doms)@, partner@, si as int, k as int));
                    }
                }
            }
            k = k + 1;
        }
        si = si + 1;
    }
    Ok(changed)
}

impl Solver {
    /// The edge states seen from a cell with sides `es` (a missing side is
    /// the grid border, read as cut).
    pub open spec fn spec_star_states(&self, es: [Option<EdgeId>; 4]) -> [EdgeState; 4] {
        [
            match es[0] {
                Some(e) => self.edges@[e as int],
                None => EdgeState::Cut,
            },
            match es[1] {
                Some(e) => self.edges@[e as int],
                None => EdgeState::Cut,
            },
            match es[2] {
                Some(e) => self.edges@[e as int],
                None => EdgeState::Cut,
            },
            match es[3] {
                Some(e) => self.edges@[e as int],
                None => EdgeState::Cut,
            },
        ]
    }

    /// Every cell clue names a cell of the grid.
    pub open spec fn cell_clues_in_range(&self) -> bool {
        forall|i: int| 0 <= i < self.cell_clues@.len() ==> clue_cell(#[trigger] self.cell_clues@[i]) < self.grid.n_cells()
    }

    /// `sol` honours every fence clue on an existing cell: the cell's side
    /// mask is one of the turns of the clue's pattern.
    pub open spec fn fences_hold(&self, sol: Seq<EdgeState>) -> bool {
        forall|i: int|
            0 <= i < self.cell_clues@.len() ==> match #[trigger] self.cell_clues@[i] {
                CellClue::Palisade { cell, kind } => self.grid.cell_exists@[cell as int] ==> kind_allows(
                    kind,
                    sol_mask(sol, self.grid.spec_cell_edges(cell as int)),
                ),
                _ => true,
            }
    }

    /// `sol` completes the decided edges and honours every fence clue.
    pub open spec fn fence_solution(&self, sol: Seq<EdgeState>) -> bool {
        completes(self.edges@, sol) && self.fences_hold(sol)
    }

    /// Star `st` is the fence clue at index `i` on an existing cell.
    pub open spec fn star_of_clue(&self, st: (PalisadeKind, [Option<EdgeId>; 4]), i: int) -> bool {
        &&& 0 <= i < self.cell_clues@.len()
        &&& match self.cell_clues@[i] {
            CellClue::Palisade { cell, kind } => {
                &&& cell < self.grid.n_cells()
                &&& self.grid.cell_exists@[cell as int]
                &&& st == (kind, self.grid.spec_cell_edges(cell as int))
            },
            _ => false,
        }
    }

    /// The edge states around a cell with sides `edges`.
    pub fn star_states(&self, edges: &[Option<EdgeId>; 4]) -> (r: [EdgeState; 4])
        requires
            forall|k: int| 0 <= k < 4 && (#[trigger] edges[k]) is Some ==> edges[k].unwrap() < self.edges@.len(),
        ensures
            r == self.spec_star_states(*edges),
    {
        let s0 = match edges[0] {
            Some(e) => self.edges[e],
            None => EdgeState::Cut,
        };
        let s1 = match edges[1] {
            Some(e) => self.edges[e],
            None => EdgeState::Cut,
        };
        let s2 = match edges[2] {
            Some(e) => self.edges[e],
            None => EdgeState::Cut,
        };
        let s3 = match edges[3] {
            Some(e) => self.edges[e],
            None => EdgeState::Cut,
        };
        [s0, s1, s2, s3]
    }

    /// A completion's mask of a cell agrees with the cell's decided sides.
    pub proof fn lemma_sol_mask_ok(&self, sol: Seq<EdgeState>, es: [Option<EdgeId>; 4])
        requires
            completes(self.edges@, sol),
            forall|k: int| 0 <= k < 4 && (#[trigger] es[k]) is Some ==> es[k].unwrap() < self.edges@.len(),
        ensures
            spec_star_mask_ok(sol_mask(sol, es), self.spec_star_states(es)),
    {
        let st = self.spec_star_states(es);
        assert forall|k: int| 0 <= k < 4 implies #[trigger] side_ok(sol_mask(sol, es), k, st[k]) by {
            lemma_sol_mask_bit(sol, es, k);
            let x: u8 = sol_mask(sol, es) >> (k as u8);
            assert(x & 1 == 0 || x & 1 == 1) by (bit_vector);
            if es[k] is Some {
                let e = es[k].unwrap() as int;
                assert(sol[e] != EdgeState::Unknown);
            }
        }
    }

    /// Decide every undecided side on which all masks of a domain agree.
    /// Every completion whose masks lie in the domains stays a completion;
    /// the result is whether any edge was decided.
    fn star_force(&mut self, stars: &Vec<(PalisadeKind, [Option<EdgeId>; 4])>, doms: &Vec<Vec<u8>>) -> (r: Result<
        bool,
        (),
    >)
        requires
            old(self).trail_ok(),
            doms@.len() == stars@.len(),
            forall|si: int, k: int|
                0 <= si < stars@.len() && 0 <= k < 4 && (#[trigger] stars@[si].1[k]) is Some ==> stars@[si].1[k].unwrap()
                    < old(self).grid.n_edges(),
        ensures
            final(self).trail_ok(),
            final(self).same_context(&*old(self)),
            final(self).pre_marked == old(self).pre_marked,
            final(self).is_pre_cut == old(self).is_pre_cut,
            forall|e: int|
                0 <= e < old(self).edges@.len() && old(self).edges@[e] != EdgeState::Unknown
                    ==> #[trigger] final(self).edges@[e] == old(self).edges@[e],
            r is Ok,
            r == Ok::<bool, ()>(true) ==> final(self).curr_unknown < old(self).curr_unknown,
            r == Ok::<bool, ()>(false) ==> final(self).edges@ == old(self).edges@,
            final(self).curr_unknown <= old(self).curr_unknown,
            r == Ok::<bool, ()>(final(self).edges@ != old(self).edges@),
            forall|sol: Seq<EdgeState>|
                completes(old(self).edges@, sol) && (forall|si: int|
                    0 <= si < stars@.len() ==> #[trigger] doms@[si]@.contains(sol_mask(sol, stars@[si].1)))
                    ==> #[trigger] completes(final(self).edges@, sol),
            forall|si: int, k: int|
                0 <= si < stars@.len() && 0 <= k < 4 && #[trigger] forces(doms@, stars@, si, k) ==> final(self).edges@[stars@[si].1[k].unwrap() as int]
                    != EdgeState::Unknown,
            forall|e: int|
                0 <= e < old(self).edges@.len() && #[trigger] final(self).edges@[e] != old(self).edges@[e] ==> forced_somewhere(
                    doms@,
                    stars@,
                    e,
                ),
    {
        let mut progress = false;
        let mut si: usize = 0;
        while si < stars.len()
            invariant
                self.trail_ok(),
                self.same_context(&*old(self)),
                self.pre_marked == old(self).pre_marked,
                self.is_pre_cut == old(self).is_pre_cut,
                old(self).trail_ok(),
                doms@.len() == stars@.len(),
                forall|a: int, k: int|
                    0 <= a < stars@.len() && 0 <= k < 4 && (#[trigger] stars@[a].1[k]) is Some ==> stars@[a].1[k].unwrap()
                        < old(self).grid.n_edges(),
                si <= stars@.len(),
                self.edges@.len() == old(self).edges@.len(),
                forall|e: int|
                    0 <= e < old(self).edges@.len() && old(self).edges@[e] != EdgeState::Unknown
                        ==> #[trigger] self.edges@[e] == old(self).edges@[e],
                progress == (self.edges@ != old(self).edges@),
                progress ==> self.curr_unknown < old(self).curr_unknown,
                !progress ==> self.curr_unknown == old(self).curr_unknown,
                forall|sol: Seq<EdgeState>|
                    completes(old(self).edges@, sol) && (forall|a: int|
                        0 <= a < stars@.len() ==> #[trigger] doms@[a]@.contains(sol_mask(sol, stars@[a].1)))
                        ==> #[trigger] completes(self.edges@, sol),
                forall|a: int, kk: int|
                    0 <= a < si && 0 <= kk < 4 && #[trigger] forces(doms@, stars@, a, kk) ==> self.edges@[stars@[a].1[kk].unwrap() as int]
                        != EdgeState::Unknown,
                forall|e: int|
                    0 <= e < old(self).edges@.len() && #[trigger] self.edges@[e] != old(self).edges@[e] ==> forced_somewhere(
                        doms@,
                        stars@,
                        e,
                    ),
            decreases stars@.len() - si,
        {
            let mut k: usize = 0;
            while k < 4
                invariant
                    self.trail_ok(),
                    self.same_context(&*old(self)),
                    self.pre_marked == old(self).pre_marked,
                    self.is_pre_cut == old(self).is_pre_cut,
                    old(self).trail_ok(),
                    doms@.len() == stars@.len(),
                    forall|a: int, kk: int|
                        0 <= a < stars@.len() && 0 <= kk < 4 && (#[trigger] stars@[a].1[kk]) is Some
                            ==> stars@[a].1[kk].unwrap() < old(self).grid.n_edges(),
                    si < stars@.len(),
                    k <= 4,
                    self.edges@.len() == old(self).edges@.len(),
                    forall|e: int|
                        0 <= e < old(self).edges@.len() && old(self).edges@[e] != EdgeState::Unknown
                            ==> #[trigger] self.edges@[e] == old(self).edges@[e],
                    progress == (self.edges@ != old(self).edges@),
                    progress ==> self.curr_unknown < old(self).curr_unknown,
                    !progress ==> self.curr_unknown == old(self).curr_unknown,
                    forall|sol: Seq<EdgeState>|
                        completes(old(self).edges@, sol) && (forall|a: int|
                            0 <= a < stars@.len() ==> #[trigger] doms@[a]@.contains(sol_mask(sol, stars@[a].1)))
                            ==> #[trigger] completes(self.edges@, sol),
                    forall|a: int, kk: int|
                        ((0 <= a < si && 0 <= kk < 4) || (a == si && 0 <= kk < k)) && #[trigger] forces(doms@, stars@, a, kk) ==> self.edges@[stars@[a].1[kk].unwrap() as int]
                            != EdgeState::Unknown,
                    forall|e: int|
                        0 <= e < old(self).edges@.len() && #[trigger] self.edges@[e] != old(self).edges@[e] ==> forced_somewhere(
                            doms@,
                            stars@,
                            e,
                        ),
                decreases 4 - k,
            {
                let ghost eb = self.edges@;
                if let Some(eid) = stars[si].1[k] {
                    if self.edges[eid] == EdgeState::Unknown {
                        let (has0, has1) = bits_seen(&doms[si], k);
                        if has0 != has1 {
                            let t = if has1 {
                                EdgeState::Cut
                            } else {
                                EdgeState::Uncut
                            };
                            let ghost e0 = self.edges@;
                            let ghost u0 = self.curr_unknown;
                            let ok = self.set_edge(eid, t);
                            proof {
                                assert(ok);
                                assert(self.edges@ == e0.update(eid as int, t));
                                lemma_wf_bounds(self.grid);
                                assert(self.edges@[eid as int] != old(self).edges@[eid as int]);
                                assert forall|sol: Seq<EdgeState>|
                                    completes(old(self).edges@, sol) && (forall|a: int|
                                        0 <= a < stars@.len() ==> #[trigger] doms@[a]@.contains(
                                            sol_mask(sol, stars@[a].1),
                                        )) implies #[trigger] completes(self.edges@, sol) by {
                                    assert(completes(e0, sol));
                                    let x = sol_mask(sol, stars@[si as int].1);
                                    assert(doms@[si as int]@.contains(x));
                                    lemma_sol_mask_bit(sol, stars@[si as int].1, k as int);
                                    assert(sol[eid as int] != EdgeState::Unknown);
                                    if has1 {
                                        assert(bit_set(x, k as int));
                                        assert(sol[eid as int] == EdgeState::Cut);
                                    } else {
                                        assert(!bit_set(x, k as int));
                                        assert(sol[eid as int] == EdgeState::Uncut);
                                    }
                                    assert forall|e: int|
                                        0 <= e < sol.len() && self.edges@[e] != EdgeState::Unknown implies #[trigger] sol[e]
                                        == self.edges@[e] by {
                                        if e != eid as int {
                                            assert(self.edges@[e] == e0[e]);
                                        }
                                    }
                                }
                            }
                            progress = true;
                        }
                    }
                }
                proof {
                    assert forall|a: int, kk: int|
                        ((0 <= a < si && 0 <= kk < 4) || (a == si && 0 <= kk < k + 1)) && #[trigger] forces(doms@, stars@, a, kk)
                            implies self.edges@[stars@[a].1[kk].unwrap() as int] != EdgeState::Unknown by {
                        let e2 = stars@[a].1[kk].unwrap() as int;
                        assert(e2 < old(self).edges@.len());
                        if !(a == si && kk == k) {
                            assert(eb[e2] != EdgeState::Unknown);
                            if self.edges@[e2] != eb[e2] {
                                assert(eb[e2] == EdgeState::Unknown);
                            }
                        }
                    }
                    assert forall|e: int|
                        0 <= e < old(self).edges@.len() && #[trigger] self.edges@[e] != old(self).edges@[e] implies forced_somewhere(
                            doms@,
                            stars@,
                            e,
                        ) by {
                        if eb[e] != old(self).edges@[e] {
                        } else {
                            assert(stars@[si as int].1[k as int] == Some(e as usize));
                            assert(forces(doms@, stars@, si as int, k as int));
                        }
                    }
                }
                k = k + 1;
            }
            si = si + 1;
        }
        Ok(progress)
    }
}


/// Some turn of `kind`'s pattern agreeing with `states` has bit `k` equal
/// to `b`.
pub open spec fn ok_bit(kind: PalisadeKind, states: [EdgeState; 4], k: int, b: bool) -> bool {
    exists|m: u8| kind_allows(kind, m) && spec_star_mask_ok(m, states) && #[trigger] bit_set(m, k) == b
}

/// The placements listed for a star are turns of its pattern that agree
/// with the edge states.
proof fn lemma_star_list_allows(kind: PalisadeKind, states: [EdgeState; 4], n: int, m: u8)
    requires
        n <= 4,
        star_list(kind, states, n).contains(m),
    ensures
        kind_allows(kind, m),
        spec_star_mask_ok(m, states),
    decreases n,
{
    if n > 0 {
        let prev = star_list(kind, states, n - 1);
        let t = mask_turns(palisade_base_mask(kind), (n - 1) as nat);
        if prev.contains(m) {
            lemma_star_list_allows(kind, states, n - 1, m);
        } else {
            let q = choose|q: int| 0 <= q < star_list(kind, states, n).len() && star_list(kind, states, n)[q] == m;
            assert(q == prev.len());
            assert(m == t);
            assert(mask_turns(palisade_base_mask(kind), (n - 1) as nat) == m);
            assert(n - 1 < 4);
            assert(kind_allows(kind, m));
        }
    }
}

/// Every mask of domain `si` gives side `k` (an edge) the same value.
pub open spec fn forces(doms: Seq<Vec<u8>>, stars: Seq<(PalisadeKind, [Option<EdgeId>; 4])>, si: int, k: int) -> bool {
    &&& stars[si].1[k] is Some
    &&& has_bit(doms[si]@, k, true) != has_bit(doms[si]@, k, false)
}

/// Some side of some domain that is edge `e` is forced.
pub open spec fn forced_somewhere(doms: Seq<Vec<u8>>, stars: Seq<(PalisadeKind, [Option<EdgeId>; 4])>, e: int) -> bool {
    exists|si: int, k: int|
        0 <= si < stars.len() && 0 <= k < 4 && #[trigger] forces(doms, stars, si, k) && stars[si].1[k] == Some(e as usize)
}

/// Keeps the masks of `dom` that agree with `states`, in order.
fn filter_ok(dom: &Vec<u8>, states: [EdgeState; 4]) -> (out: Vec<u8>)
    ensures
        forall|m: u8| #[trigger] out@.contains(m) <==> (dom@.contains(m) && spec_star_mask_ok(m, states)),
        out@.len() <= dom@.len(),
{
    let mut out: Vec<u8> = Vec::new();
    let mut i: usize = 0;
    while i < dom.len()
        invariant
            i <= dom@.len(),
            out@.len() <= i,
            forall|m: u8| #[trigger] out@.contains(m) <==> (dom@.take(i as int).contains(m) && spec_star_mask_ok(m, states)),
        decreases dom@.len() - i,
    {
        let m = dom[i];
        let ghost o0 = out@;
        let ghost t0 = dom@.take(i as int);
        let ghost t1 = dom@.take(i + 1);
        proof {
            assert(t1 == t0.push(m));
        }
        if star_mask_ok(m, states) {
            out.push(m);
        }
        proof {
            assert forall|x: u8| #[trigger] out@.contains(x) <==> (t1.contains(x) && spec_star_mask_ok(x, states)) by {
                if out@.contains(x) {
                    let q = choose|q: int| 0 <= q < out@.len() && out@[q] == x;
                    if q < o0.len() {
                        assert(o0[q] == x);
                        assert(o0.contains(x));
                        let p = choose|p: int| 0 <= p < t0.len() && t0[p] == x;
                        assert(t1[p] == x);
                    } else {
                        assert(x == m);
                        assert(t1[i as int] == m);
                    }
                }
                if t1.contains(x) && spec_star_mask_ok(x, states) {
                    let p = choose|p: int| 0 <= p < t1.len() && t1[p] == x;
                    if p < i {
                        assert(t0[p] == x);
                        assert(o0.contains(x));
                        let q = choose|q: int| 0 <= q < o0.len() && o0[q] == x;
                        assert(out@[q] == x);
                    } else {
                        assert(x == m);
                        assert(out@[out@.len() - 1] == m);
                    }
                }
            }
        }
        i = i + 1;
    }
    proof {
        assert(dom@.take(i as int) == dom@);
    }
    out
}

/// Some index of `new` holds an edge decided there but undecided in `old`.
pub open spec fn decided_some(old_edges: Seq<EdgeState>, new_edges: Seq<EdgeState>) -> bool {
    exists|e: int|
        0 <= e < old_edges.len() && old_edges[e] == EdgeState::Unknown && #[trigger] new_edges[e] != EdgeState::Unknown
}

impl Solver {
    /// Every star lists in-range edges and comes from a fence clue.
    pub open spec fn stars_ok(&self, stars: Seq<(PalisadeKind, [Option<EdgeId>; 4])>) -> bool {
        &&& forall|si: int, k: int|
            0 <= si < stars.len() && 0 <= k < 4 && (#[trigger] stars[si].1[k]) is Some ==> stars[si].1[k].unwrap()
                < self.grid.n_edges()
        &&& forall|si: int| 0 <= si < stars.len() ==> #[trigger] self.from_some_clue(stars[si])
    }

    /// Star `st` comes from some fence clue.
    pub open spec fn from_some_clue(&self, st: (PalisadeKind, [Option<EdgeId>; 4])) -> bool {
        exists|j: int| #[trigger] self.star_of_clue(st, j)
    }

    /// Fence clue `j`, when it is on an existing cell, appears among `stars`.
    pub open spec fn clue_listed(&self, stars: Seq<(PalisadeKind, [Option<EdgeId>; 4])>, j: int) -> bool {
        match self.cell_clues@[j] {
            CellClue::Palisade { cell, kind } => (cell < self.grid.n_cells() && self.grid.cell_exists@[cell as int]) ==> exists|q: int|
                0 <= q < stars.len() && stars[q] == (kind, self.grid.spec_cell_edges(cell as int)),
            _ => true,
        }
    }

    /// Side `k` of fence clue `j` is left open: when the clue is on an
    /// existing cell and that side is an undecided edge, the turns of the
    /// clue's pattern that agree with the decided edges allow it both cut
    /// and uncut.
    pub open spec fn side_open(&self, j: int, k: int) -> bool {
        match self.cell_clues@[j] {
            CellClue::Palisade { cell, kind } => {
                let es = self.grid.spec_cell_edges(cell as int);
                (cell < self.grid.n_cells() && self.grid.cell_exists@[cell as int] && es[k] is Some && self.edges@[es[k].unwrap() as int]
                    == EdgeState::Unknown) ==> ok_bit(kind, self.spec_star_states(es), k, true) && ok_bit(
                    kind,
                    self.spec_star_states(es),
                    k,
                    false,
                )
            },
            _ => true,
        }
    }

    /// Fence propagation to a fixpoint.  Each fence clue on an existing
    /// cell gets the turns of its pattern that agree with the decided edges;
    /// then, until nothing changes, domains drop masks that disagree with
    /// the edges, two clued cells sharing an edge keep only masks whose bit
    /// there the other can match, and an undecided edge on which all masks
    /// of a domain agree is decided.  A domain left empty is a
    /// contradiction.  Sound: every completion of the edges that honours
    /// all fence clues makes the call succeed and still completes the edges
    /// it leaves.  The result is whether any edge was decided.
    pub fn propagate_palisade_constraints(&mut self) -> (r: Result<bool, ()>)
        requires
            old(self).trail_ok(),
            old(self).cell_clues_in_range(),
        ensures
            final(self).trail_ok(),
            final(self).same_context(&*old(self)),
            final(self).pre_marked == old(self).pre_marked,
            final(self).is_pre_cut == old(self).is_pre_cut,
            forall|e: int|
                0 <= e < old(self).edges@.len() && old(self).edges@[e] != EdgeState::Unknown
                    ==> #[trigger] final(self).edges@[e] == old(self).edges@[e],
            r matches Ok(progress) ==> progress == (final(self).edges@ != old(self).edges@),
            forall|sol: Seq<EdgeState>| #[trigger] old(self).fence_solution(sol) ==> r is Ok && completes(
                final(self).edges@,
                sol,
            ),
            r is Ok ==> forall|j: int, k: int|
                0 <= j < old(self).cell_clues@.len() && 0 <= k < 4 ==> #[trigger] final(self).side_open(j, k),
    {
        proof {
            lemma_wf_bounds(self.grid);
        }
        let n = self.grid.num_cells();
        let mut stars: Vec<(PalisadeKind, [Option<EdgeId>; 4])> = Vec::new();
        let mut star_of: Vec<Option<usize>> = vec![None; n];
        let mut i: usize = 0;
        while i < self.cell_clues.len()
            invariant
                self.trail_ok(),
                self.cell_clues_in_range(),
                n == self.grid.n_cells(),
                star_of@.len() == n,
                i <= self.cell_clues@.len(),
                forall|c: int| 0 <= c < n && (#[trigger] star_of@[c]) is Some ==> star_of@[c].unwrap() < stars@.len(),
                self.stars_ok(stars@),
                *self == *old(self),
                forall|j: int| 0 <= j < i ==> #[trigger] self.clue_listed(stars@, j),
            decreases self.cell_clues@.len() - i,
        {
            let cl = self.cell_clues[i];
            proof {
                assert(clue_cell(self.cell_clues@[i as int]) < self.grid.n_cells());
            }
            let ghost s_in = stars@;
            if let CellClue::Palisade { cell, kind } = cl {
                if self.grid.cell_exists[cell] {
                    let ghost s0 = stars@;
                    star_of.set(cell, Some(stars.len()));
                    stars.push((kind, self.grid.cell_edges(cell)));
                    proof {
                        assert(self.star_of_clue(stars@[stars@.len() - 1], i as int));
                        assert forall|si: int| 0 <= si < stars@.len() implies #[trigger] self.from_some_clue(stars@[si]) by {
                            if si < s0.len() {
                                assert(stars@[si] == s0[si]);
                            } else {
                                assert(self.star_of_clue(stars@[si], i as int));
                            }
                        }
                    }
                }
            }
            proof {
                assert forall|j: int| 0 <= j < i + 1 implies #[trigger] self.clue_listed(stars@, j) by {
                    if j < i {
                        assert(self.clue_listed(s_in, j));
                        if let CellClue::Palisade { cell, kind } = self.cell_clues@[j] {
                            if cell < self.grid.n_cells() && self.grid.cell_exists@[cell as int] {
                                let q = choose|q: int| 0 <= q < s_in.len() && s_in[q] == (kind, self.grid.spec_cell_edges(cell as int));
                                assert(stars@[q] == s_in[q]);
                            }
                        }
                    } else {
                        if let CellClue::Palisade { cell, kind } = self.cell_clues@[j] {
                            if cell < self.grid.n_cells() && self.grid.cell_exists@[cell as int] {
                                assert(stars@[stars@.len() - 1] == (kind, self.grid.spec_cell_edges(cell as int)));
                            }
                        }
                    }
                }
            }
            i = i + 1;
        }
        if stars.len() == 0 {
            proof {
                assert forall|j: int, k: int| 0 <= j < old(self).cell_clues@.len() && 0 <= k < 4 implies #[trigger] self.side_open(j, k) by {
                    assert(self.clue_listed(stars@, j));
                }
            }
            return Ok(false);
        }
        let ns = stars.len();
        let mut partner: Vec<[Option<(usize, usize)>; 4]> = vec![[None; 4]; ns];
        let mut si: usize = 0;
        while si < ns
            invariant
                self.trail_ok(),
                n == self.grid.n_cells(),
                star_of@.len() == n,
                ns == stars@.len(),
                forall|j: int| 0 <= j < old(self).cell_clues@.len() ==> #[trigger] old(self).clue_listed(stars@, j),
                forall|c: int| 0 <= c < n && (#[trigger] star_of@[c]) is Some ==> star_of@[c].unwrap() < stars@.len(),
                self.stars_ok(stars@),
                si <= ns,
                partner_ok(partner@, stars@.map_values(|st: (PalisadeKind, [Option<EdgeId>; 4])| st.1)),
            decreases ns - si,
        {
            let mut k: usize = 0;
            while k < 4
                invariant
                    self.trail_ok(),
                    n == self.grid.n_cells(),
                    star_of@.len() == n,
                    ns == stars@.len(),
                    forall|j: int| 0 <= j < old(self).cell_clues@.len() ==> #[trigger] old(self).clue_listed(stars@, j),
                    forall|c: int| 0 <= c < n && (#[trigger] star_of@[c]) is Some ==> star_of@[c].unwrap() < stars@.len(),
                    self.stars_ok(stars@),
                    si < ns,
                    k <= 4,
                    partner_ok(partner@, stars@.map_values(|st: (PalisadeKind, [Option<EdgeId>; 4])| st.1)),
                decreases 4 - k,
            {
                if let Some(eid) = stars[si].1[k] {
                    let (a, b) = self.grid.edge_cells(eid);
                    let nb = match star_of[a] {
                        Some(x) => if x == si {
                            b
                        } else {
                            a
                        },
                        None => a,
                    };
                    if let Some(ti) = star_of[nb] {
                        let mut tk: usize = 0;
                        while tk < 4
                            invariant
                                ns == stars@.len(),
                                forall|j: int| 0 <= j < old(self).cell_clues@.len() ==> #[trigger] old(self).clue_listed(stars@, j),
                                self.stars_ok(stars@),
                                si < ns,
                                k < 4,
                                ti < ns,
                                tk <= 4,
                                stars@[si as int].1[k as int] == Some(eid),
                                partner_ok(partner@, stars@.map_values(|st: (PalisadeKind, [Option<EdgeId>; 4])| st.1)),
                            decreases 4 - tk,
                        {
                            let same = match stars[ti].1[tk] {
                                Some(x) => x == eid,
                                None => false,
                            };
                            if same {
                                let ghost p0 = partner@;
                                let mut row = partner[si];
                                row[k] = Some((ti, tk));
                                partner.set(si, row);
                                proof {
                                    let sides = stars@.map_values(|st: (PalisadeKind, [Option<EdgeId>; 4])| st.1);
                                    assert forall|a2: int, k2: int|
                                        0 <= a2 < partner@.len() && 0 <= k2 < 4 && (#[trigger] partner@[a2][k2]) is Some implies {
                                        let (t2, q2) = partner@[a2][k2].unwrap();
                                        &&& t2 < sides.len()
                                        &&& q2 < 4
                                        &&& sides[a2][k2] is Some
                                        &&& sides[t2 as int][q2 as int] == sides[a2][k2]
                                    } by {
                                        if a2 == si && k2 == k {
                                            assert(sides[ti as int][tk as int] == Some(eid));
                                        } else if a2 == si {
                                            assert(partner@[a2][k2] == p0[a2][k2]);
                                        } else {
                                            assert(partner@[a2] == p0[a2]);
                                        }
                                    }
                                }
                            }
                            tk = tk + 1;
                        }
                    }
                }
                k = k + 1;
            }
            si = si + 1;
        }
        let mut doms: Vec<Vec<u8>> = Vec::new();
        let mut si: usize = 0;
        while si < ns
            invariant
                self.trail_ok(),
                *self == *old(self),
                ns == stars@.len(),
                forall|j: int| 0 <= j < old(self).cell_clues@.len() ==> #[trigger] old(self).clue_listed(stars@, j),
                self.stars_ok(stars@),
                si <= ns,
                doms@.len() == si,
                forall|sol: Seq<EdgeState>| #[trigger] old(self).fence_solution(sol) ==> forall|a: int|
                    0 <= a < si ==> #[trigger] doms@[a]@.contains(sol_mask(sol, stars@[a].1)),
                forall|a: int, m: u8| 0 <= a < si && #[trigger] doms@[a]@.contains(m) ==> kind_allows(stars@[a].0, m),
            decreases ns - si,
        {
            let states = self.star_states(&stars[si].1);
            let d = star_placements(stars[si].0, states);
            let ghost d0 = doms@;
            doms.push(d);
            proof {
                assert forall|a: int, m: u8| 0 <= a < si + 1 && #[trigger] doms@[a]@.contains(m) implies kind_allows(stars@[a].0, m) by {
                    if a < si {
                        assert(doms@[a] == d0[a]);
                    } else {
                        lemma_star_list_allows(stars@[si as int].0, states, 4, m);
                    }
                }
                assert forall|sol: Seq<EdgeState>| #[trigger] old(self).fence_solution(sol) implies forall|a: int|
                    0 <= a < si + 1 ==> #[trigger] doms@[a]@.contains(sol_mask(sol, stars@[a].1)) by {
                    let st = stars@[si as int];
                    assert(self.from_some_clue(st));
                    let j = choose|j: int| #[trigger] self.star_of_clue(st, j);
                    assert(self.star_of_clue(st, j));
                    if let CellClue::Palisade { cell, kind } = self.cell_clues@[j] {
                        assert(kind_allows(kind, sol_mask(sol, st.1)));
                        let t = choose|t: nat| t < 4 && #[trigger] mask_turns(palisade_base_mask(kind), t) == sol_mask(
                            sol,
                            st.1,
                        );
                        self.lemma_sol_mask_ok(sol, st.1);
                        lemma_star_list_has(kind, states, t as int);
                    }
                    assert forall|a: int| 0 <= a < si + 1 implies #[trigger] doms@[a]@.contains(sol_mask(sol, stars@[a].1)) by {
                        if a < si {
                            assert(doms@[a] == d0[a]);
                        }
                    }
                }
            }
            si = si + 1;
        }
        let ghost sides = stars@.map_values(|st: (PalisadeKind, [Option<EdgeId>; 4])| st.1);
        let mut progress = false;
        loop
            invariant
                self.trail_ok(),
                self.same_context(&*old(self)),
                self.pre_marked == old(self).pre_marked,
                self.is_pre_cut == old(self).is_pre_cut,
                old(self).trail_ok(),
                ns == stars@.len(),
                forall|j: int| 0 <= j < old(self).cell_clues@.len() ==> #[trigger] old(self).clue_listed(stars@, j),
                old(self).stars_ok(stars@),
                sides == stars@.map_values(|st: (PalisadeKind, [Option<EdgeId>; 4])| st.1),
                partner_ok(partner@, sides),
                doms@.len() == ns,
                self.edges@.len() == old(self).edges@.len(),
                forall|e: int|
                    0 <= e < old(self).edges@.len() && old(self).edges@[e] != EdgeState::Unknown
                        ==> #[trigger] self.edges@[e] == old(self).edges@[e],
                progress == decided_some(old(self).edges@, self.edges@),
                forall|sol: Seq<EdgeState>| #[trigger] old(self).fence_solution(sol) ==> completes(self.edges@, sol)
                    && forall|a: int| 0 <= a < ns ==> #[trigger] doms@[a]@.contains(sol_mask(sol, stars@[a].1)),
                forall|a: int, m: u8| 0 <= a < ns && #[trigger] doms@[a]@.contains(m) ==> kind_allows(stars@[a].0, m),
            ensures
                self.trail_ok(),
                self.same_context(&*old(self)),
                self.pre_marked == old(self).pre_marked,
                self.is_pre_cut == old(self).is_pre_cut,
                self.edges@.len() == old(self).edges@.len(),
                forall|e: int|
                    0 <= e < old(self).edges@.len() && old(self).edges@[e] != EdgeState::Unknown
                        ==> #[trigger] self.edges@[e] == old(self).edges@[e],
                progress == decided_some(old(self).edges@, self.edges@),
                forall|sol: Seq<EdgeState>| #[trigger] old(self).fence_solution(sol) ==> completes(self.edges@, sol),
                doms@.len() == ns,
                forall|a: int| 0 <= a < ns ==> (#[trigger] doms@[a])@.len() > 0,
                forall|a: int, m: u8|
                    0 <= a < ns && #[trigger] doms@[a]@.contains(m) ==> kind_allows(stars@[a].0, m) && spec_star_mask_ok(
                        m,
                        self.spec_star_states(stars@[a].1),
                    ),
                forall|a: int, k: int|
                    0 <= a < ns && 0 <= k < 4 && #[trigger] forces(doms@, stars@, a, k) ==> self.edges@[stars@[a].1[k].unwrap() as int]
                        != EdgeState::Unknown,
            decreases total_len(doms@) + self.curr_unknown,
        {
            let ghost measure0 = total_len(doms@) + self.curr_unknown;
            let ghost e_round = self.edges@;
            let mut changed = false;
            let mut si: usize = 0;
            while si < ns
                invariant
                    self.trail_ok(),
                    self.same_context(&*old(self)),
                    self.pre_marked == old(self).pre_marked,
                    self.is_pre_cut == old(self).is_pre_cut,
                    self.edges@.len() == old(self).edges@.len(),
                    forall|e: int|
                        0 <= e < old(self).edges@.len() && old(self).edges@[e] != EdgeState::Unknown
                            ==> #[trigger] self.edges@[e] == old(self).edges@[e],
                    ns == stars@.len(),
                    forall|j: int| 0 <= j < old(self).cell_clues@.len() ==> #[trigger] old(self).clue_listed(stars@, j),
                    old(self).stars_ok(stars@),
                    doms@.len() == ns,
                    si <= ns,
                    total_len(doms@) + self.curr_unknown <= measure0,
                    changed ==> total_len(doms@) + self.curr_unknown < measure0,
                    forall|sol: Seq<EdgeState>| #[trigger] old(self).fence_solution(sol) ==> completes(self.edges@, sol)
                        && forall|a: int| 0 <= a < ns ==> #[trigger] doms@[a]@.contains(sol_mask(sol, stars@[a].1)),
                    self.edges@ == e_round,
                    forall|a: int, m: u8| 0 <= a < ns && #[trigger] doms@[a]@.contains(m) ==> kind_allows(stars@[a].0, m),
                    forall|a: int| 0 <= a < si ==> (#[trigger] doms@[a])@.len() > 0,
                    forall|a: int, m: u8|
                        0 <= a < si && #[trigger] doms@[a]@.contains(m) ==> spec_star_mask_ok(m, self.spec_star_states(stars@[a].1)),
                decreases ns - si,
            {
                let states = self.star_states(&stars[si].1);
                let before = doms[si].len();
                let kept = filter_ok(&doms[si], states);
                let ghost d0 = doms@;
                let shrank = kept.len() != before;
                doms.set(si, kept);
                proof {
                    lemma_total_update(d0, si as int, kept);
                    assert forall|sol: Seq<EdgeState>| #[trigger] old(self).fence_solution(sol) implies completes(
                        self.edges@,
                        sol,
                    ) && forall|a: int| 0 <= a < ns ==> #[trigger] doms@[a]@.contains(sol_mask(sol, stars@[a].1)) by {
                        let st = stars@[si as int];
                        self.lemma_sol_mask_ok(sol, st.1);
                        assert(d0[si as int]@.contains(sol_mask(sol, st.1)));
                        assert forall|a: int| 0 <= a < ns implies #[trigger] doms@[a]@.contains(sol_mask(sol, stars@[a].1)) by {
                            if a != si {
                                assert(doms@[a] == d0[a]);
                            }
                        }
                    }
                }
                if doms[si].len() == 0 {
                    proof {
                        assert forall|sol: Seq<EdgeState>| #[trigger] old(self).fence_solution(sol) implies false by {
                            assert(doms@[si as int]@.contains(sol_mask(sol, stars@[si as int].1)));
                        }
                    }
                    return Err(());
                }
                if shrank {
                    changed = true;
                }
                proof {
                    assert forall|a: int, m: u8| 0 <= a < ns && #[trigger] doms@[a]@.contains(m) implies kind_allows(stars@[a].0, m) by {
                        if a != si {
                            assert(doms@[a] == d0[a]);
                        } else {
                            assert(d0[a]@.contains(m));
                        }
                    }
                    assert forall|a: int, m: u8|
                        0 <= a < si + 1 && #[trigger] doms@[a]@.contains(m) implies spec_star_mask_ok(m, self.spec_star_states(stars@[a].1)) by {
                        if a != si {
                            assert(doms@[a] == d0[a]);
                        }
                    }
                    assert forall|a: int| 0 <= a < si + 1 implies (#[trigger] doms@[a])@.len() > 0 by {
                        if a != si {
                            assert(doms@[a] == d0[a]);
                        }
                    }
                }
                si = si + 1;
            }
            let ghost dc = doms@;
            let c = star_consensus(&partner, &mut doms);
            proof {
                assert forall|a: int, m: u8| 0 <= a < ns && #[trigger] doms@[a]@.contains(m) implies kind_allows(stars@[a].0, m) by {
                    assert(dc[a]@.contains(m));
                }
            }
            proof {
                assert forall|sol: Seq<EdgeState>| #[trigger] old(self).fence_solution(sol) implies c is Ok && forall|a: int|
                    0 <= a < ns ==> #[trigger] doms@[a]@.contains(sol_mask(sol, stars@[a].1)) by {
                    let ms = Seq::new(ns as nat, |a: int| sol_mask(sol, stars@[a].1));
                    assert forall|a: int, k: int|
                        0 <= a < partner@.len() && 0 <= k < 4 && (#[trigger] partner@[a][k]) is Some implies bit_set(ms[a], k)
                        == bit_set(ms[partner@[a][k].unwrap().0 as int], partner@[a][k].unwrap().1 as int) by {
                        let (t2, q2) = partner@[a][k].unwrap();
                        assert(sides[a] == stars@[a].1);
                        assert(sides[t2 as int] == stars@[t2 as int].1);
                        lemma_sol_mask_bit(sol, stars@[a].1, k);
                        lemma_sol_mask_bit(sol, stars@[t2 as int].1, q2 as int);
                    }
                    assert forall|a: int| 0 <= a < ms.len() implies #[trigger] dc[a]@.contains(ms[a]) by {
                        assert(dc[a]@.contains(sol_mask(sol, stars@[a].1)));
                    }
                    assert(choice_fits(ms, dc, partner@));
                    assert(choice_fits(ms, doms@, partner@));
                    assert forall|a: int| 0 <= a < ns implies #[trigger] doms@[a]@.contains(sol_mask(sol, stars@[a].1)) by {
                        assert(doms@[a]@.contains(ms[a]));
                    }
                }
            }
            match c {
                Err(_) => {
                    return Err(());
                },
                Ok(b) => {
                    if b {
                        changed = true;
                    }
                },
            }
            let ghost e0 = self.edges@;
            let fr = self.star_force(&stars, &doms);
            let p = match fr {
                Ok(p) => p,
                Err(_) => {
                    return Err(());
                },
            };
            proof {
                if p {
                    assert(!(self.edges@ =~= e0));
                    let w = choose|w: int| 0 <= w < e0.len() && self.edges@[w] != e0[w];
                    assert(e0[w] == EdgeState::Unknown);
                    if old(self).edges@[w] != EdgeState::Unknown {
                        assert(e0[w] == old(self).edges@[w]);
                    }
                    assert(decided_some(old(self).edges@, self.edges@));
                } else if progress {
                    let w0 = choose|w0: int|
                        0 <= w0 < old(self).edges@.len() && old(self).edges@[w0] == EdgeState::Unknown
                            && #[trigger] e0[w0] != EdgeState::Unknown;
                    assert(self.edges@[w0] == e0[w0]);
                }
            }
            if p {
                progress = true;
                changed = true;
            }
            if !changed {
                proof {
                    assert(c == Ok::<bool, ()>(false));
                    assert(same_doms(doms@, dc));
                    assert(self.edges@ == e0);
                    assert(e0 == e_round);
                    assert forall|a: int| 0 <= a < ns implies (#[trigger] doms@[a])@.len() > 0 by {
                        assert(doms@[a]@ == dc[a]@);
                    }
                    assert forall|a: int, m: u8|
                        0 <= a < ns && #[trigger] doms@[a]@.contains(m) implies kind_allows(stars@[a].0, m) && spec_star_mask_ok(
                            m,
                            self.spec_star_states(stars@[a].1),
                        ) by {
                        assert(doms@[a]@ == dc[a]@);
                        assert(dc[a]@.contains(m));
                    }
                }
                break;
            }
        }
        proof {
            if progress {
                let w = choose|w: int|
                    0 <= w < old(self).edges@.len() && old(self).edges@[w] == EdgeState::Unknown
                        && #[trigger] self.edges@[w] != EdgeState::Unknown;
                assert(self.edges@[w] != old(self).edges@[w]);
            } else {
                assert forall|e: int| 0 <= e < self.edges@.len() implies self.edges@[e] == old(self).edges@[e] by {
                    if old(self).edges@[e] == EdgeState::Unknown && self.edges@[e] != EdgeState::Unknown {
                        assert(decided_some(old(self).edges@, self.edges@));
                    }
                }
                assert(self.edges@ =~= old(self).edges@);
            }
        }
        proof {
            assert forall|j: int, k: int| 0 <= j < old(self).cell_clues@.len() && 0 <= k < 4 implies #[trigger] self.side_open(j, k) by {
                assert(old(self).clue_listed(stars@, j));
                if let CellClue::Palisade { cell, kind } = self.cell_clues@[j] {
                    let es = self.grid.spec_cell_edges(cell as int);
                    if cell < self.grid.n_cells() && self.grid.cell_exists@[cell as int] && es[k] is Some
                        && self.edges@[es[k].unwrap() as int] == EdgeState::Unknown {
                        let q = choose|q: int| 0 <= q < stars@.len() && stars@[q] == (kind, es);
                        let st = self.spec_star_states(es);
                        let d = doms@[q]@;
                        assert(d.len() > 0);
                        assert(d.contains(d[0]));
                        if !ok_bit(kind, st, k, true) {
                            assert forall|m: u8| d.contains(m) implies !bit_set(m, k) by {
                                assert(kind_allows(kind, m) && spec_star_mask_ok(m, st));
                            }
                            assert(has_bit(d, k, false));
                            assert(forces(doms@, stars@, q, k));
                        } else if !ok_bit(kind, st, k, false) {
                            assert forall|m: u8| d.contains(m) implies bit_set(m, k) by {
                                assert(kind_allows(kind, m) && spec_star_mask_ok(m, st));
                            }
                            assert(has_bit(d, k, true));
                            assert(forces(doms@, stars@, q, k));
                        }
                    }
                }
            }
        }
        Ok(progress)
    }
}

} // verus!
