//! Union-Find with XOR parity.
//!
//! Tracks equivalence classes with a parity bit between elements. A parity of
//! 0 means "same group" and 1 means "different group" (e.g. Cut/Uncut for an
//! edge-level union-find).
//!
//! The model: following parent links from `x` reaches a root `uf_root(x)`,
//! and the parities met on the way add up (mod 2) to `uf_parity(x)`, the
//! parity between `x` and its root.  Two elements are related when they share
//! a root; their relation is the sum of their parities.

use vstd::prelude::*;
use vstd::arithmetic::power2::{pow2, lemma2_to64, lemma2_to64_rest, lemma_pow2_strictly_increases, lemma_pow2_unfold};
use vstd::set_lib::{set_int_range, lemma_int_range, lemma_len_subset, lemma_set_disjoint_lens};

verus! {

/// Root and accumulated parity reached by following at most `fuel` parent
/// links from `x`.
pub open spec fn uf_walk(parent: Seq<usize>, par: Seq<u8>, x: int, fuel: nat) -> (int, int)
    decreases fuel,
{
    if fuel == 0 || !(0 <= x < parent.len()) || parent[x] == x {
        (x, 0)
    } else {
        let (r, p) = uf_walk(parent, par, parent[x] as int, (fuel - 1) as nat);
        (r, (par[x] + p) % 2)
    }
}

/// The root of `x`'s class.
pub open spec fn uf_root(parent: Seq<usize>, par: Seq<u8>, x: int) -> int {
    uf_walk(parent, par, x, 256).0
}

/// The parity (0 or 1) between `x` and the root of its class.
pub open spec fn uf_parity(parent: Seq<usize>, par: Seq<u8>, x: int) -> int {
    uf_walk(parent, par, x, 256).1
}

/// Parent links stay in range, parities are bits, and ranks strictly grow
/// along every parent link (so every walk ends at a root).
pub open spec fn uf_links_ok(parent: Seq<usize>, rank: Seq<u8>, par: Seq<u8>) -> bool {
    &&& parent.len() == rank.len()
    &&& parent.len() == par.len()
    &&& forall|i: int| 0 <= i < parent.len() ==> (#[trigger] parent[i]) < parent.len()
    &&& forall|i: int| 0 <= i < parent.len() ==> (#[trigger] par[i]) <= 1
    &&& forall|i: int|
        0 <= i < parent.len() && #[trigger] parent[i] != i ==> rank[parent[i] as int] > rank[i]
}

/// The elements whose root is `r`.
pub open spec fn uf_members(parent: Seq<usize>, par: Seq<u8>, r: int) -> Set<int> {
    Set::new(|j: int| 0 <= j < parent.len() && uf_root(parent, par, j) == r)
}

/// Well-formed parity union-find: good links, and a root of rank `k` has at
/// least `2^k` members (which keeps every rank below 64).
pub open spec fn uf_wf(parent: Seq<usize>, rank: Seq<u8>, par: Seq<u8>) -> bool {
    &&& uf_links_ok(parent, rank, par)
    &&& parent.len() <= usize::MAX
    &&& forall|r: int|
        0 <= r < parent.len() && parent[r] == r ==> pow2(rank[r] as nat) <= (#[trigger] uf_members(
            parent,
            par,
            r,
        )).len()
}

/// Some rank assignment makes the links well-founded.
pub open spec fn uf_acyclic(parent: Seq<usize>, par: Seq<u8>) -> bool {
    exists|rank: Seq<u8>| uf_links_ok(parent, rank, par)
}

/// Any fuel of at least `256 - rank[x]` reaches the same root, which is a
/// genuine root.
proof fn lemma_walk_stable(parent: Seq<usize>, rank: Seq<u8>, par: Seq<u8>, x: int, f: nat)
    requires
        uf_links_ok(parent, rank, par),
        0 <= x < parent.len(),
        f >= 256 - rank[x],
    ensures
        uf_walk(parent, par, x, f) == uf_walk(parent, par, x, (256 - rank[x]) as nat),
        0 <= uf_walk(parent, par, x, f).0 < parent.len(),
        parent[uf_walk(parent, par, x, f).0] == uf_walk(parent, par, x, f).0,
        0 <= uf_walk(parent, par, x, f).1 <= 1,
    decreases f,
{
    if parent[x] != x {
        let y = parent[x] as int;
        assert(rank[y] > rank[x]);
        lemma_walk_stable(parent, rank, par, y, (f - 1) as nat);
        lemma_walk_stable(parent, rank, par, y, (256 - rank[x] - 1) as nat);
    }
}

/// One step of the walk: a root is its own root with parity 0; otherwise `x`
/// has its parent's root and adds its own link parity.
pub proof fn lemma_root_step(parent: Seq<usize>, rank: Seq<u8>, par: Seq<u8>, x: int)
    requires
        uf_links_ok(parent, rank, par),
        0 <= x < parent.len(),
    ensures
        0 <= uf_root(parent, par, x) < parent.len(),
        parent[uf_root(parent, par, x)] == uf_root(parent, par, x),
        0 <= uf_parity(parent, par, x) <= 1,
        parent[x] == x ==> uf_root(parent, par, x) == x && uf_parity(parent, par, x) == 0,
        parent[x] != x ==> uf_root(parent, par, x) == uf_root(parent, par, parent[x] as int)
            && uf_parity(parent, par, x) == (par[x] + uf_parity(parent, par, parent[x] as int))
            % 2,
{
    lemma_walk_stable(parent, rank, par, x, 256);
    if parent[x] != x {
        let y = parent[x] as int;
        lemma_walk_stable(parent, rank, par, y, 255);
        lemma_walk_stable(parent, rank, par, y, 256);
    }
}

proof fn lemma_members_bounded(parent: Seq<usize>, par: Seq<u8>, r: int)
    ensures
        uf_members(parent, par, r).finite(),
        uf_members(parent, par, r).len() <= parent.len(),
{
    lemma_int_range(0, parent.len() as int);
    lemma_len_subset(uf_members(parent, par, r), set_int_range(0, parent.len() as int));
}

/// In a well-formed union-find every root has rank below 64.
pub proof fn lemma_rank_small(parent: Seq<usize>, rank: Seq<u8>, par: Seq<u8>, r: int)
    requires
        uf_wf(parent, rank, par),
        0 <= r < parent.len(),
        parent[r] == r,
    ensures
        rank[r] < 64,
{
    lemma_members_bounded(parent, par, r);
    if rank[r] >= 64 {
        lemma2_to64_rest();
        if rank[r] > 64 {
            lemma_pow2_strictly_increases(64, rank[r] as nat);
        }
        assert(pow2(rank[r] as nat) >= 0x10000000000000000);
        assert(false);
    }
}

/// Attaching root `s` under root `t` with link parity `q` moves exactly the
/// members of `s` into `t`'s class, adding `q` to their parities.
proof fn lemma_attach(
    parent: Seq<usize>,
    rank: Seq<u8>,
    par: Seq<u8>,
    parent2: Seq<usize>,
    rank2: Seq<u8>,
    par2: Seq<u8>,
    s: int,
    t: int,
    q: int,
    x: int,
)
    requires
        uf_links_ok(parent, rank, par),
        uf_links_ok(parent2, rank2, par2),
        0 <= s < parent.len(),
        0 <= t < parent.len(),
        s != t,
        parent[s] == s,
        parent[t] == t,
        parent2 == parent.update(s, t as usize),
        par2 == par.update(s, q as u8),
        0 <= q <= 1,
        0 <= x < parent.len(),
    ensures
        uf_root(parent2, par2, x) == if uf_root(parent, par, x) == s {
            t
        } else {
            uf_root(parent, par, x)
        },
        uf_parity(parent2, par2, x) == if uf_root(parent, par, x) == s {
            (uf_parity(parent, par, x) + q) % 2
        } else {
            uf_parity(parent, par, x)
        },
    decreases 256 - rank[x],
{
    lemma_root_step(parent, rank, par, x);
    lemma_root_step(parent2, rank2, par2, x);
    if x == s {
        lemma_root_step(parent2, rank2, par2, t);
    } else if parent[x] != x {
        let y = parent[x] as int;
        lemma_attach(parent, rank, par, parent2, rank2, par2, s, t, q, y);
    }
}

/// How a successful union of `c1` and `c2` with parity `rel` changes the
/// relation between `x` and `y`: they become related exactly when they
/// already were or their classes are the two that were merged; an existing
/// relation keeps its parity, and a new one is the parity implied by `rel`.
pub open spec fn uf_union_effect(
    p0: Seq<usize>,
    q0: Seq<u8>,
    p1: Seq<usize>,
    q1: Seq<u8>,
    c1: int,
    c2: int,
    rel: int,
    x: int,
    y: int,
) -> bool {
    let rx = uf_root(p0, q0, x);
    let ry = uf_root(p0, q0, y);
    let merged = (rx == uf_root(p0, q0, c1) && ry == uf_root(p0, q0, c2)) || (rx == uf_root(
        p0,
        q0,
        c2,
    ) && ry == uf_root(p0, q0, c1));
    &&& (uf_root(p1, q1, x) == uf_root(p1, q1, y) <==> (rx == ry || merged))
    &&& rx == ry ==> (uf_parity(p1, q1, x) + uf_parity(p1, q1, y)) % 2 == (uf_parity(p0, q0, x)
        + uf_parity(p0, q0, y)) % 2
    &&& rx != ry && merged ==> (uf_parity(p1, q1, x) + uf_parity(p1, q1, y)) % 2 == (uf_parity(
        p0,
        q0,
        x,
    ) + uf_parity(p0, q0, c1) + rel + uf_parity(p0, q0, c2) + uf_parity(p0, q0, y)) % 2
}

/// Attaching root `s` under root `t` (bumping `t`'s rank on a tie) keeps the
/// union-find well formed and moves exactly `s`'s class under `t`.
proof fn lemma_attach_wf(
    p0: Seq<usize>,
    k0: Seq<u8>,
    q0: Seq<u8>,
    pp: Seq<usize>,
    kk: Seq<u8>,
    qq: Seq<u8>,
    s: int,
    t: int,
    q: int,
)
    requires
        uf_wf(p0, k0, q0),
        0 <= s < p0.len(),
        0 <= t < p0.len(),
        s != t,
        p0[s] == s,
        p0[t] == t,
        pp == p0.update(s, t as usize),
        qq == q0.update(s, q as u8),
        0 <= q <= 1,
        (kk == k0 && k0[t] > k0[s]) || (k0[t] == k0[s] && k0[t] < 64 && kk == k0.update(
            t,
            (k0[t] + 1) as u8,
        )),
    ensures
        uf_wf(pp, kk, qq),
        forall|x: int|
            0 <= x < p0.len() ==> #[trigger] uf_root(pp, qq, x) == (if uf_root(p0, q0, x) == s {
                t
            } else {
                uf_root(p0, q0, x)
            }) && uf_parity(pp, qq, x) == (if uf_root(p0, q0, x) == s {
                (uf_parity(p0, q0, x) + q) % 2
            } else {
                uf_parity(p0, q0, x)
            }),
{
    assert(uf_links_ok(pp, kk, qq)) by {
        assert forall|i: int| 0 <= i < pp.len() && #[trigger] pp[i] != i implies kk[pp[i] as int]
            > kk[i] by {
            if i != s {
                assert(pp[i] == p0[i]);
                assert(k0[p0[i] as int] > k0[i]);
            }
        }
    }
    assert forall|x: int| 0 <= x < p0.len() implies #[trigger] uf_root(pp, qq, x) == (if uf_root(
        p0,
        q0,
        x,
    ) == s {
        t
    } else {
        uf_root(p0, q0, x)
    }) by {
        lemma_attach(p0, k0, q0, pp, kk, qq, s, t, q, x);
    }
    assert forall|x: int| 0 <= x < p0.len() implies #[trigger] uf_parity(pp, qq, x) == (if uf_root(p0, q0, x) == s {
        (uf_parity(p0, q0, x) + q) % 2
    } else {
        uf_parity(p0, q0, x)
    }) by {
        lemma_attach(p0, k0, q0, pp, kk, qq, s, t, q, x);
    }
    lemma_members_bounded(p0, q0, s);
    lemma_members_bounded(p0, q0, t);
    assert(uf_members(pp, qq, t) =~= uf_members(p0, q0, s) + uf_members(p0, q0, t));
    assert(uf_members(p0, q0, s).disjoint(uf_members(p0, q0, t)));
    lemma_set_disjoint_lens(uf_members(p0, q0, s), uf_members(p0, q0, t));
    assert forall|r: int| 0 <= r < pp.len() && pp[r] == r implies pow2(kk[r] as nat) <= (
    #[trigger] uf_members(pp, qq, r)).len() by {
        assert(pp[s] == t);
        if r == t {
            assert(pow2(k0[s] as nat) <= uf_members(p0, q0, s).len());
            assert(pow2(k0[t] as nat) <= uf_members(p0, q0, t).len());
            if kk[t] != k0[t] {
                lemma_pow2_unfold(kk[t] as nat);
            }
        } else {
            assert(p0[r] == r);
            assert(uf_members(pp, qq, r) =~= uf_members(p0, q0, r));
        }
    }
    assert(pp.len() <= usize::MAX);
    assert(uf_links_ok(pp, kk, qq));
}

/// From the per-element effect of attaching `s` under `t`, derive how every
/// pair's relation changes.
proof fn lemma_union_relations(
    p0: Seq<usize>,
    q0: Seq<u8>,
    pp: Seq<usize>,
    qq: Seq<u8>,
    s: int,
    t: int,
    q: int,
    c1: int,
    c2: int,
    rel: int,
)
    requires
        s != t,
        0 <= c1 < p0.len(),
        0 <= c2 < p0.len(),
        0 <= rel <= 1,
        (s == uf_root(p0, q0, c1) && t == uf_root(p0, q0, c2)) || (s == uf_root(p0, q0, c2) && t
            == uf_root(p0, q0, c1)),
        forall|x: int| 0 <= x < p0.len() ==> 0 <= #[trigger] uf_parity(p0, q0, x) <= 1,
        q == (uf_parity(p0, q0, c1) + uf_parity(p0, q0, c2) + rel) % 2,
        forall|x: int|
            0 <= x < p0.len() ==> #[trigger] uf_root(pp, qq, x) == (if uf_root(p0, q0, x) == s {
                t
            } else {
                uf_root(p0, q0, x)
            }) && uf_parity(pp, qq, x) == (if uf_root(p0, q0, x) == s {
                (uf_parity(p0, q0, x) + q) % 2
            } else {
                uf_parity(p0, q0, x)
            }),
    ensures
        uf_root(pp, qq, c1) == uf_root(pp, qq, c2),
        (uf_parity(pp, qq, c1) + uf_parity(pp, qq, c2)) % 2 == rel,
        forall|x: int, y: int|
            #![trigger uf_root(pp, qq, x), uf_root(pp, qq, y)]
            0 <= x < p0.len() && 0 <= y < p0.len() ==> uf_union_effect(p0, q0, pp, qq, c1, c2, rel, x, y),
{
    assert(uf_root(pp, qq, c1) == t);
    assert(uf_root(pp, qq, c2) == t);
    let a = uf_parity(p0, q0, c1);
    let b = uf_parity(p0, q0, c2);
    assert(0 <= a <= 1 && 0 <= b <= 1);
    assert(uf_parity(pp, qq, c1) == (if uf_root(p0, q0, c1) == s { (a + q) % 2 } else { a }));
    assert(uf_parity(pp, qq, c2) == (if uf_root(p0, q0, c2) == s { (b + q) % 2 } else { b }));
    assert forall|x: int, y: int|
        #![trigger uf_root(pp, qq, x), uf_root(pp, qq, y)]
        0 <= x < p0.len() && 0 <= y < p0.len() implies uf_union_effect(p0, q0, pp, qq, c1, c2, rel, x, y) by {
        let rx = uf_root(p0, q0, x);
        let ry = uf_root(p0, q0, y);
        assert(uf_root(pp, qq, x) == (if rx == s { t } else { rx }));
        assert(uf_root(pp, qq, y) == (if ry == s { t } else { ry }));
        let px = uf_parity(p0, q0, x);
        let py = uf_parity(p0, q0, y);
        assert(0 <= px <= 1 && 0 <= py <= 1);
        assert(uf_parity(pp, qq, x) == (if rx == s { (px + q) % 2 } else { px }));
        assert(uf_parity(pp, qq, y) == (if ry == s { (py + q) % 2 } else { py }));
    }
}

pub proof fn lemma_xor_bits(a: u8, b: u8)
    requires
        a <= 1,
        b <= 1,
    ensures
        (a ^ b) as int == (a + b) % 2,
        a ^ b <= 1,
{
    assert(a ^ b <= 1 && ((a ^ b) == 0 <==> a == b)) by (bit_vector)
        requires
            a <= 1,
            b <= 1,
    ;
}

/// Find the root of `x` and the accumulated XOR parity from `x` to its root.
pub fn uf_find(parent: &[usize], par: &[u8], x: usize) -> (res: (usize, u8))
    requires
        uf_acyclic(parent@, par@),
        x < parent@.len(),
    ensures
        res.0 as int == uf_root(parent@, par@, x as int),
        res.1 as int == uf_parity(parent@, par@, x as int),
        res.0 < parent@.len(),
        parent@[res.0 as int] == res.0,
{
    let ghost rank = choose|rank: Seq<u8>| uf_links_ok(parent@, rank, par@);
    let mut cur = x;
    let mut p = 0u8;
    proof {
        lemma_root_step(parent@, rank, par@, x as int);
    }
    while parent[cur] != cur
        invariant
            uf_links_ok(parent@, rank, par@),
            cur < parent@.len(),
            p <= 1,
            uf_root(parent@, par@, x as int) == uf_root(parent@, par@, cur as int),
            uf_parity(parent@, par@, x as int) == (p + uf_parity(parent@, par@, cur as int)) % 2,
        decreases 256 - rank[cur as int],
    {
        proof {
            lemma_root_step(parent@, rank, par@, cur as int);
            lemma_root_step(parent@, rank, par@, parent@[cur as int] as int);
            lemma_xor_bits(p, par@[cur as int]);
        }
        p = p ^ par[cur];
        cur = parent[cur];
    }
    proof {
        lemma_root_step(parent@, rank, par@, cur as int);
    }
    (cur, p)
}

/// Union `c1` and `c2` with parity `rel` (0=same, 1=different).
/// Returns `Ok(true)` if newly merged, `Ok(false)` if already consistent,
/// `Err(())` on contradiction.
pub fn uf_union(
    parent: &mut Vec<usize>,
    rank: &mut Vec<u8>,
    par: &mut Vec<u8>,
    c1: usize,
    c2: usize,
    rel: u8,
) -> (res: Result<bool, ()>)
    requires
        uf_wf(old(parent)@, old(rank)@, old(par)@),
        c1 < old(parent)@.len(),
        c2 < old(parent)@.len(),
        rel <= 1,
    ensures
        uf_wf(final(parent)@, final(rank)@, final(par)@),
        final(parent)@.len() == old(parent)@.len(),
        ({
            let (p0, q0) = (old(parent)@, old(par)@);
            let (p1, q1) = (final(parent)@, final(par)@);
            let same = uf_root(p0, q0, c1 as int) == uf_root(p0, q0, c2 as int);
            let agree = (uf_parity(p0, q0, c1 as int) + uf_parity(p0, q0, c2 as int)) % 2 == rel;
            &&& res is Err <==> same && !agree
            &&& res != Ok::<bool, ()>(true) ==> p1 == p0 && q1 == q0 && final(rank)@ == old(rank)@
            &&& res == Ok::<bool, ()>(true) <==> !same
            &&& res is Ok ==> uf_root(p1, q1, c1 as int) == uf_root(p1, q1, c2 as int) && (uf_parity(
                p1,
                q1,
                c1 as int,
            ) + uf_parity(p1, q1, c2 as int)) % 2 == rel
            &&& res is Ok ==> forall|x: int, y: int|
                #![trigger uf_root(p1, q1, x), uf_root(p1, q1, y)]
                0 <= x < p0.len() && 0 <= y < p0.len() ==> uf_union_effect(p0, q0, p1, q1, c1 as int, c2 as int, rel as int, x, y)
        }),
{
    let ghost p0 = parent@;
    let ghost k0 = rank@;
    let ghost q0 = par@;
    proof {
        assert(uf_links_ok(p0, k0, q0));
    }
    let (r1, p1) = uf_find(parent.as_slice(), par.as_slice(), c1);
    let (r2, p2) = uf_find(parent.as_slice(), par.as_slice(), c2);
    proof {
        lemma_xor_bits(p1, p2);
        lemma_root_step(p0, k0, q0, c1 as int);
        lemma_root_step(p0, k0, q0, c2 as int);
    }
    if r1 == r2 {
        return if (p1 ^ p2) == rel {
            Ok(false)
        } else {
            Err(())
        };
    }
    let x12 = p1 ^ p2;
    proof {
        lemma_xor_bits(x12, rel);
    }
    let q = x12 ^ rel;
    let ghost s: int;
    let ghost t: int;
    if rank[r1] < rank[r2] {
        parent.set(r1, r2);
        par.set(r1, q);
        proof {
            s = r1 as int;
            t = r2 as int;
        }
    } else if rank[r1] > rank[r2] {
        parent.set(r2, r1);
        par.set(r2, q);
        proof {
            s = r2 as int;
            t = r1 as int;
        }
    } else {
        parent.set(r2, r1);
        par.set(r2, q);
        proof {
            lemma_rank_small(p0, k0, q0, r1 as int);
        }
        let k = rank[r1] + 1;
        rank.set(r1, k);
        proof {
            s = r2 as int;
            t = r1 as int;
        }
    }
    proof {
        let pp = parent@;
        let kk = rank@;
        let qq = par@;
        lemma_attach_wf(p0, k0, q0, pp, kk, qq, s, t, q as int);
        assert(uf_root(p0, q0, c1 as int) == r1);
        assert(uf_root(p0, q0, c2 as int) == r2);
        lemma_xor_bits(x12, rel);
        assert forall|x: int| 0 <= x < p0.len() implies 0 <= #[trigger] uf_parity(p0, q0, x) <= 1 by {
            lemma_root_step(p0, k0, q0, x);
        }
        lemma_union_relations(p0, q0, pp, qq, s, t, q as int, c1 as int, c2 as int, rel as int);
    }
    Ok(true)
}

/// Owning wrapper around the parity union-find arrays.
pub struct ParityUF {
    parent: Vec<usize>,
    rank: Vec<u8>,
    par: Vec<u8>,
}

impl ParityUF {
    pub closed spec fn wf(&self) -> bool {
        uf_wf(self.parent@, self.rank@, self.par@)
    }

    /// Number of elements.
    pub closed spec fn len(&self) -> nat {
        self.parent@.len()
    }

    /// Root of `x`'s class.
    pub closed spec fn root(&self, x: int) -> int {
        uf_root(self.parent@, self.par@, x)
    }

    /// Parity between `x` and the root of its class.
    pub closed spec fn parity(&self, x: int) -> int {
        uf_parity(self.parent@, self.par@, x)
    }

    /// `x` and `y` are in one class.
    pub open spec fn related(&self, x: int, y: int) -> bool {
        self.root(x) == self.root(y)
    }

    /// The parity between two elements of one class.
    pub open spec fn relation(&self, x: int, y: int) -> int {
        (self.parity(x) + self.parity(y)) % 2
    }

    pub fn new(n: usize) -> (s: Self)
        ensures
            s.wf(),
            s.len() == n,
            forall|x: int, y: int|
                0 <= x < n && 0 <= y < n ==> (#[trigger] s.related(x, y) <==> x == y),
            forall|x: int| 0 <= x < n ==> #[trigger] s.parity(x) == 0,
    {
        let mut parent: Vec<usize> = Vec::new();
        let mut i: usize = 0;
        while i < n
            invariant
                i <= n,
                parent@.len() == i,
                forall|j: int| 0 <= j < i ==> parent@[j] == j,
            decreases n - i,
        {
            parent.push(i);
            i = i + 1;
        }
        let rank: Vec<u8> = vec![0u8; n];
        let par: Vec<u8> = vec![0u8; n];
        let s = Self { parent, rank, par };
        proof {
            let (pp, kk, qq) = (s.parent@, s.rank@, s.par@);
            assert(uf_links_ok(pp, kk, qq));
            assert forall|x: int| 0 <= x < n implies uf_root(pp, qq, x) == x && uf_parity(pp, qq, x)
                == 0 by {
                lemma_root_step(pp, kk, qq, x);
            }
            assert forall|r: int| 0 <= r < pp.len() && pp[r] == r implies pow2(kk[r] as nat) <= (
            #[trigger] uf_members(pp, qq, r)).len() by {
                assert(uf_members(pp, qq, r) =~= set![r]);
                lemma2_to64();
            }
        }
        s
    }

    pub fn find(&self, x: usize) -> (r: (usize, u8))
        requires
            self.wf(),
            x < self.len(),
        ensures
            r.0 as int == self.root(x as int),
            r.1 as int == self.parity(x as int),
            self.root(r.0 as int) == r.0,
            self.parity(r.0 as int) == 0,
            r.0 < self.len(),
            r.1 <= 1,
    {
        proof {
            assert(uf_acyclic(self.parent@, self.par@));
        }
        let r = uf_find(self.parent.as_slice(), self.par.as_slice(), x);
        proof {
            lemma_root_step(self.parent@, self.rank@, self.par@, r.0 as int);
            lemma_root_step(self.parent@, self.rank@, self.par@, x as int);
        }
        r
    }

    /// Every element has a root in range, which is its own root, and a
    /// parity bit.
    pub proof fn lemma_parity_bit(&self, x: int)
        requires
            self.wf(),
            0 <= x < self.len(),
        ensures
            0 <= self.parity(x) <= 1,
            0 <= self.root(x) < self.len(),
            self.root(self.root(x)) == self.root(x),
            self.parity(self.root(x)) == 0,
    {
        lemma_root_step(self.parent@, self.rank@, self.par@, x);
        lemma_root_step(self.parent@, self.rank@, self.par@, self.root(x));
    }

    /// Union `c1` and `c2` with parity `rel` (0=same, 1=different).
    /// Returns `Ok(true)` if newly merged, `Ok(false)` if already consistent,
    /// `Err(())` on contradiction.
    pub fn union(&mut self, c1: usize, c2: usize, rel: u8) -> (res: Result<bool, ()>)
        requires
            old(self).wf(),
            c1 < old(self).len(),
            c2 < old(self).len(),
            rel <= 1,
        ensures
            final(self).wf(),
            final(self).len() == old(self).len(),
            res is Err <==> old(self).related(c1 as int, c2 as int) && old(self).relation(
                c1 as int,
                c2 as int,
            ) != rel,
            res != Ok::<bool, ()>(true) ==> forall|x: int| #[trigger]
                final(self).root(x) == old(self).root(x) && final(self).parity(x) == old(
                    self,
                ).parity(x),
            res == Ok::<bool, ()>(true) <==> !old(self).related(c1 as int, c2 as int),
            res is Ok ==> final(self).related(c1 as int, c2 as int) && final(self).relation(
                c1 as int,
                c2 as int,
            ) == rel,
            res is Ok ==> forall|x: int, y: int|
                0 <= x < old(self).len() && 0 <= y < old(self).len() ==> {
                    let merged = (old(self).root(x) == old(self).root(c1 as int) && old(self).root(
                        y,
                    ) == old(self).root(c2 as int)) || (old(self).root(x) == old(self).root(
                        c2 as int,
                    ) && old(self).root(y) == old(self).root(c1 as int));
                    &&& (#[trigger] final(self).related(x, y) <==> (old(self).related(x, y)
                        || merged))
                    &&& old(self).related(x, y) ==> final(self).relation(x, y) == old(
                        self,
                    ).relation(x, y)
                    &&& !old(self).related(x, y) && merged ==> final(self).relation(x, y) == (
                    old(self).parity(x) + old(self).parity(c1 as int) + rel + old(self).parity(
                        c2 as int,
                    ) + old(self).parity(y)) % 2
                },
    {
        let res = uf_union(&mut self.parent, &mut self.rank, &mut self.par, c1, c2, rel);
        proof {
            let p0 = old(self).parent@;
            let q0 = old(self).par@;
            let p1 = self.parent@;
            let q1 = self.par@;
            assert forall|x: int, y: int|
                0 <= x < old(self).len() && 0 <= y < old(self).len() && res is Ok implies #[trigger] self.related(x, y) == (
                    old(self).related(x, y) || ((old(self).root(x) == old(self).root(c1 as int)
                    && old(self).root(y) == old(self).root(c2 as int)) || (old(self).root(x)
                    == old(self).root(c2 as int) && old(self).root(y) == old(self).root(
                    c1 as int,
                )))) by {
                assert(uf_root(p1, q1, x) == uf_root(p1, q1, y) <==> (uf_root(p0, q0, x) == uf_root(p0, q0, y) || ((uf_root(p0, q0, x) == uf_root(p0, q0, c1 as int) && uf_root(p0, q0, y) == uf_root(p0, q0, c2 as int)) || (uf_root(p0, q0, x) == uf_root(p0, q0, c2 as int) && uf_root(p0, q0, y) == uf_root(p0, q0, c1 as int)))));
            }
        }
        res
    }
}

} // verus!
