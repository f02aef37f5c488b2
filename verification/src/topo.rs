//! Deterministic topological extraction: a Kahn-style elimination that always
//! places the smallest still-eligible index (the first-appearance tie-break),
//! and reports the full set of indices a cycle keeps from being placed.

use vstd::prelude::*;
use crate::graph::adj_view;
use crate::graph::wf_adj;
use crate::graph::edge_in;
use crate::graph::is_path;
use crate::graph::reaches;
use crate::graph::acyclic;
use crate::graph::row_contains;
use crate::graph::falses;
use crate::poset::Poset;
use crate::poset::lemma_push_no_dup;

verus! {

/// `i` can be placed next: not placed yet, and every predecessor is placed.
pub open spec fn eligible(gs: Seq<Seq<usize>>, o: Seq<usize>, i: usize) -> bool {
    i < gs.len() && !o.contains(i) && (forall|u: usize| #[trigger] edge_in(gs, u, i) ==> o.contains(
        u,
    ))
}

/// The smallest eligible index at or above `i`, if any.
pub open spec fn min_eligible_from(gs: Seq<Seq<usize>>, o: Seq<usize>, i: nat) -> Option<usize>
    decreases gs.len() - i,
{
    if i >= gs.len() {
        None
    } else if eligible(gs, o, i as usize) {
        Some(i as usize)
    } else {
        min_eligible_from(gs, o, i + 1)
    }
}

/// The elimination run to completion from the partial order `o`.
pub open spec fn kahn_rec(gs: Seq<Seq<usize>>, o: Seq<usize>) -> Seq<usize>
    decreases gs.len() - o.len(),
{
    if o.len() >= gs.len() {
        o
    } else {
        match min_eligible_from(gs, o, 0) {
            None => o,
            Some(m) => kahn_rec(gs, o.push(m)),
        }
    }
}

/// The deterministic elimination order of the whole graph.
pub open spec fn kahn(gs: Seq<Seq<usize>>) -> Seq<usize> {
    kahn_rec(gs, Seq::empty())
}

/// The indices below `m` that the elimination never places, ascending.
pub open spec fn unplaced_upto(gs: Seq<Seq<usize>>, m: nat) -> Seq<usize>
    decreases m,
{
    if m == 0 {
        Seq::empty()
    } else if kahn(gs).contains((m - 1) as usize) {
        unplaced_upto(gs, (m - 1) as nat)
    } else {
        unplaced_upto(gs, (m - 1) as nat).push((m - 1) as usize)
    }
}

/// All indices the elimination never places, ascending.
pub open spec fn blocked_ids(gs: Seq<Seq<usize>>) -> Seq<usize> {
    unplaced_upto(gs, gs.len())
}

/// Every placed index has all its predecessors placed earlier.
pub open spec fn topo_prefix(gs: Seq<Seq<usize>>, o: Seq<usize>) -> bool {
    forall|kk: int, u: usize|
        0 <= kk < o.len() && #[trigger] edge_in(gs, u, o[kk]) ==> o.subrange(0, kk).contains(u)
}

/// What the minimum-search returns: the smallest eligible index at or above `i`.
pub proof fn lemma_min_eligible(gs: Seq<Seq<usize>>, o: Seq<usize>, i: nat)
    requires
        gs.len() <= usize::MAX,
    ensures
        match min_eligible_from(gs, o, i) {
            Some(m) => i <= m && (m as nat) < gs.len() && eligible(gs, o, m) && (forall|jj: usize|
                i <= jj < m ==> !(#[trigger] eligible(gs, o, jj))),
            None => forall|jj: usize| i <= jj < gs.len() ==> !(#[trigger] eligible(gs, o, jj)),
        },
    decreases gs.len() - i,
{
    if i >= gs.len() {
    } else if eligible(gs, o, i as usize) {
    } else {
        lemma_min_eligible(gs, o, i + 1);
        match min_eligible_from(gs, o, i + 1) {
            None => {
                assert forall|jj: usize| i <= jj < gs.len()
                    implies !(#[trigger] eligible(gs, o, jj)) by {
                    if jj != i as usize {
                        assert(i + 1 <= jj);
                    }
                }
            },
            Some(m) => {
                assert forall|jj: usize| i <= jj < m implies !(#[trigger] eligible(gs, o, jj)) by {
                    if jj != i as usize {
                        assert(i + 1 <= jj);
                    }
                }
            },
        }
    }
}

/// A duplicate-free sequence of indices below `n` has at most `n` elements.
pub proof fn lemma_distinct_bounded_len(o: Seq<usize>, n: nat)
    requires
        o.no_duplicates(),
        forall|kk: int| 0 <= kk < o.len() ==> (#[trigger] o[kk]) < n,
    ensures
        o.len() <= n,
{
    let oi = o.map_values(|x: usize| x as int);
    assert(oi.len() == o.len());
    assert(oi.no_duplicates()) by {
        assert forall|i: int, j: int|
            0 <= i < oi.len() && 0 <= j < oi.len() && i != j implies oi[i] != oi[j] by {
            assert(o[i] != o[j]);
            assert(oi[i] == o[i] as int);
            assert(oi[j] == o[j] as int);
        }
    }
    oi.unique_seq_to_set();
    let r = vstd::set_lib::set_int_range(0, n as int);
    vstd::set_lib::lemma_int_range(0, n as int);
    assert(oi.to_set().subset_of(r)) by {
        assert forall|y: int| oi.to_set().contains(y) implies r.contains(y) by {
            assert(oi.contains(y));
            let kk = choose|kk: int| 0 <= kk < oi.len() && oi[kk] == y;
            assert(o[kk] < n);
        }
    }
    vstd::set_lib::lemma_len_subset(oi.to_set(), r);
}

/// A duplicate-free sequence of `n` indices below `n` contains each of them.
pub proof fn lemma_distinct_full_contains(o: Seq<usize>, n: nat)
    requires
        o.no_duplicates(),
        o.len() == n,
        forall|kk: int| 0 <= kk < o.len() ==> (#[trigger] o[kk]) < n,
    ensures
        forall|x: usize| x < n ==> o.contains(x),
{
    let oi = o.map_values(|x: usize| x as int);
    assert(oi.len() == o.len());
    assert(oi.no_duplicates()) by {
        assert forall|i: int, j: int|
            0 <= i < oi.len() && 0 <= j < oi.len() && i != j implies oi[i] != oi[j] by {
            assert(o[i] != o[j]);
            assert(oi[i] == o[i] as int);
            assert(oi[j] == o[j] as int);
        }
    }
    oi.unique_seq_to_set();
    let r = vstd::set_lib::set_int_range(0, n as int);
    vstd::set_lib::lemma_int_range(0, n as int);
    assert(oi.to_set().subset_of(r)) by {
        assert forall|y: int| oi.to_set().contains(y) implies r.contains(y) by {
            assert(oi.contains(y));
            let kk = choose|kk: int| 0 <= kk < oi.len() && oi[kk] == y;
            assert(o[kk] < n);
        }
    }
    vstd::set_lib::lemma_subset_equality(oi.to_set(), r);
    assert forall|x: usize| x < n implies o.contains(x) by {
        assert(r.contains(x as int));
        assert(oi.to_set().contains(x as int));
        assert(oi.contains(x as int));
        let kk = choose|kk: int| 0 <= kk < oi.len() && oi[kk] == x as int;
        assert(o[kk] as int == x as int);
        assert(o[kk] == x);
    }
}

/// A duplicate-free sequence of fewer than `n` indices below `n` misses one.
pub proof fn lemma_missing_index(o: Seq<usize>, n: nat)
    requires
        n <= usize::MAX,
        o.no_duplicates(),
        o.len() < n,
        forall|kk: int| 0 <= kk < o.len() ==> (#[trigger] o[kk]) < n,
    ensures
        exists|x: usize| x < n && !o.contains(x),
{
    if forall|x: usize| x < n ==> #[trigger] o.contains(x) {
        let oi = o.map_values(|x: usize| x as int);
        assert(oi.len() == o.len());
        assert(oi.no_duplicates()) by {
            assert forall|i: int, j: int|
                0 <= i < oi.len() && 0 <= j < oi.len() && i != j implies oi[i] != oi[j] by {
                assert(o[i] != o[j]);
                assert(oi[i] == o[i] as int);
                assert(oi[j] == o[j] as int);
            }
        }
        oi.unique_seq_to_set();
        let r = vstd::set_lib::set_int_range(0, n as int);
        vstd::set_lib::lemma_int_range(0, n as int);
        assert(r.subset_of(oi.to_set())) by {
            assert forall|y: int| r.contains(y) implies oi.to_set().contains(y) by {
                let x = y as usize;
                assert(o.contains(x));
                let kk = choose|kk: int| 0 <= kk < o.len() && o[kk] == x;
                assert(oi[kk] == y);
                assert(oi.contains(y));
            }
        }
        vstd::set_lib::lemma_len_subset(r, oi.to_set());
        assert(false);
    }
}

/// Invariants of the elimination, by induction over its steps: it extends its
/// start, stays duplicate-free and in range, keeps predecessors before their
/// successors, and ends either complete or with nothing eligible.
#[verifier::rlimit(50)]
pub proof fn lemma_kahn_rec_props(gs: Seq<Seq<usize>>, o: Seq<usize>)
    requires
        gs.len() <= usize::MAX,
        o.no_duplicates(),
        forall|kk: int| 0 <= kk < o.len() ==> (#[trigger] o[kk]) < gs.len(),
        topo_prefix(gs, o),
    ensures
        kahn_rec(gs, o).len() >= o.len(),
        kahn_rec(gs, o).subrange(0, o.len() as int) == o,
        kahn_rec(gs, o).no_duplicates(),
        forall|kk: int| 0 <= kk < kahn_rec(gs, o).len() ==> (#[trigger] kahn_rec(gs, o)[kk])
            < gs.len(),
        topo_prefix(gs, kahn_rec(gs, o)),
        kahn_rec(gs, o).len() == gs.len() || (forall|i2: usize|
            !(#[trigger] eligible(gs, kahn_rec(gs, o), i2))),
    decreases gs.len() - o.len(),
{
    if o.len() >= gs.len() {
        lemma_distinct_bounded_len(o, gs.len());
        assert(kahn_rec(gs, o) == o);
        assert(o.subrange(0, o.len() as int) =~= o);
    } else {
        lemma_min_eligible(gs, o, 0);
        match min_eligible_from(gs, o, 0) {
            None => {
                assert(kahn_rec(gs, o) == o);
                assert(o.subrange(0, o.len() as int) =~= o);
                assert forall|i2: usize| !(#[trigger] eligible(gs, o, i2)) by {
                    if i2 < gs.len() {
                        assert(!eligible(gs, o, i2));
                    }
                }
            },
            Some(m) => {
                let o2 = o.push(m);
                assert(!o.contains(m));
                lemma_push_no_dup(o, m);
                assert forall|kk: int| 0 <= kk < o2.len() implies (#[trigger] o2[kk]) < gs.len() by {
                    if kk < o.len() {
                        assert(o2[kk] == o[kk]);
                    } else {
                        assert(o2[kk] == m);
                    }
                }
                assert(topo_prefix(gs, o2)) by {
                    assert forall|kk: int, u: usize|
                        0 <= kk < o2.len() && #[trigger] edge_in(gs, u, o2[kk])
                        implies o2.subrange(0, kk).contains(u) by {
                        if kk < o.len() {
                            assert(o2[kk] == o[kk]);
                            assert(o.subrange(0, kk).contains(u));
                            assert(o2.subrange(0, kk) =~= o.subrange(0, kk));
                        } else {
                            assert(o2[kk] == m);
                            assert(eligible(gs, o, m));
                            assert(o.contains(u));
                            assert(o2.subrange(0, kk) =~= o);
                        }
                    }
                }
                lemma_kahn_rec_props(gs, o2);
                assert(kahn_rec(gs, o) == kahn_rec(gs, o2));
                let r = kahn_rec(gs, o);
                assert(r.subrange(0, o2.len() as int) == o2);
                assert(r.subrange(0, o.len() as int) =~= o) by {
                    assert forall|kk: int| 0 <= kk < o.len()
                        implies r.subrange(0, o.len() as int)[kk] == o[kk] by {
                        assert(r.subrange(0, o2.len() as int)[kk] == o2[kk]);
                        assert(r[kk] == o2[kk]);
                        assert(o2[kk] == o[kk]);
                    }
                }
            },
        }
    }
}

/// A complete elimination is a topological order: a duplicate-free listing of
/// all indices in which every edge points forward.
pub proof fn lemma_kahn_complete_props(gs: Seq<Seq<usize>>)
    requires
        gs.len() <= usize::MAX,
        kahn(gs).len() == gs.len(),
    ensures
        kahn(gs).no_duplicates(),
        forall|kk: int| 0 <= kk < kahn(gs).len() ==> (#[trigger] kahn(gs)[kk]) < gs.len(),
        forall|x: usize| x < gs.len() ==> kahn(gs).contains(x),
        forall|k1: int, k2: int|
            0 <= k1 < kahn(gs).len() && 0 <= k2 < kahn(gs).len() && edge_in(
                gs,
                kahn(gs)[k1],
                kahn(gs)[k2],
            ) ==> k1 < k2,
{
    lemma_kahn_rec_props(gs, Seq::empty());
    let o = kahn(gs);
    assert forall|k1: int, k2: int|
        0 <= k1 < o.len() && 0 <= k2 < o.len() && edge_in(gs, o[k1], o[k2]) implies k1 < k2 by {
        assert(o.subrange(0, k2).contains(o[k1]));
        let kk = choose|kk: int| 0 <= kk < k2 && o.subrange(0, k2)[kk] == o[k1];
        assert(o[kk] == o[k1]);
        if kk != k1 {
            assert(o[kk] != o[k1]);
        }
    }
    lemma_distinct_full_contains(o, gs.len());
}

/// Along any path, positions in a complete elimination strictly increase.
proof fn lemma_path_forward(gs: Seq<Seq<usize>>, o: Seq<usize>, p: Seq<usize>, k1: int, k2: int)
    requires
        o.no_duplicates(),
        forall|x: usize| x < gs.len() ==> o.contains(x),
        forall|a: int, b: int|
            0 <= a < o.len() && 0 <= b < o.len() && edge_in(gs, o[a], o[b]) ==> a < b,
        is_path(gs, p),
        0 <= k1 < o.len(),
        0 <= k2 < o.len(),
        o[k1] == p.first(),
        o[k2] == p.last(),
    ensures
        k1 < k2,
    decreases p.len(),
{
    if p.len() == 2 {
        assert(edge_in(gs, p[0], p[1]));
        assert(edge_in(gs, o[k1], o[k2]));
    } else {
        let q = p.drop_last();
        assert(q.len() == p.len() - 1);
        assert forall|k: int| 0 <= k < q.len() - 1 implies edge_in(gs, #[trigger] q[k], q[k + 1]) by {
            assert(q[k] == p[k]);
            assert(q[k + 1] == p[k + 1]);
            assert(edge_in(gs, p[k], p[k + 1]));
        }
        assert(is_path(gs, q));
        assert(q[0] == p[0]);
        assert(edge_in(gs, p[p.len() - 2], p[p.len() - 1]));
        let mid = p[p.len() - 2];
        assert(mid < gs.len());
        assert(o.contains(mid));
        let km = choose|km: int| 0 <= km < o.len() && o[km] == mid;
        assert(q.last() == mid);
        lemma_path_forward(gs, o, q, k1, km);
        assert(edge_in(gs, o[km], o[k2]));
    }
}

/// A graph whose elimination completes has no directed cycle.
pub proof fn lemma_kahn_complete_acyclic(gs: Seq<Seq<usize>>)
    requires
        gs.len() <= usize::MAX,
        kahn(gs).len() == gs.len(),
    ensures
        acyclic(gs),
{
    lemma_kahn_complete_props(gs);
    let o = kahn(gs);
    assert forall|u: usize| !(#[trigger] reaches(gs, u, u)) by {
        if reaches(gs, u, u) {
            let p = choose|p: Seq<usize>| is_path(gs, p) && p.first() == u && p.last() == u;
            assert(edge_in(gs, p[0], p[1]));
            assert(u < gs.len());
            assert(o.contains(u));
            let k1 = choose|k1: int| 0 <= k1 < o.len() && o[k1] == u;
            lemma_path_forward(gs, o, p, k1, k1);
        }
    }
}

/// Backward chains inside the stuck set: from any unplaced index a chain of
/// `m` edges of unplaced indices leads to it.
proof fn lemma_stuck_chain(gs: Seq<Seq<usize>>, o: Seq<usize>, i: usize, m: nat) -> (p: Seq<usize>)
    requires
        forall|i2: usize| !(#[trigger] eligible(gs, o, i2)),
        i < gs.len(),
        !o.contains(i),
    ensures
        p.len() == m + 1,
        p.last() == i,
        forall|k: int| 0 <= k < p.len() - 1 ==> edge_in(gs, #[trigger] p[k], p[k + 1]),
        forall|k: int| 0 <= k < p.len() ==> (#[trigger] p[k]) < gs.len() && !o.contains(p[k]),
    decreases m,
{
    if m == 0 {
        let p = seq![i];
        assert(p.last() == i);
        p
    } else {
        assert(!eligible(gs, o, i));
        let u = choose|u: usize| #[trigger] edge_in(gs, u, i) && !o.contains(u);
        assert(u < gs.len());
        let q = lemma_stuck_chain(gs, o, u, (m - 1) as nat);
        let p = q.push(i);
        assert(p.last() == i);
        assert forall|k: int| 0 <= k < p.len() - 1 implies edge_in(gs, #[trigger] p[k], p[k + 1]) by {
            if k < q.len() - 1 {
                assert(p[k] == q[k]);
                assert(p[k + 1] == q[k + 1]);
                assert(edge_in(gs, q[k], q[k + 1]));
            } else {
                assert(p[k] == q[k]);
                assert(q[k] == q.last());
                assert(p[k + 1] == i);
                assert(edge_in(gs, u, i));
            }
        }
        assert forall|k: int| 0 <= k < p.len() implies (#[trigger] p[k]) < gs.len() && !o.contains(
            p[k],
        ) by {
            if k < q.len() {
                assert(p[k] == q[k]);
                assert(q[k] < gs.len() && !o.contains(q[k]));
            } else {
                assert(p[k] == i);
            }
        }
        p
    }
}

/// A graph whose elimination sticks early has a directed cycle.
#[verifier::rlimit(50)]
pub proof fn lemma_kahn_stuck_cycle(gs: Seq<Seq<usize>>)
    requires
        gs.len() <= usize::MAX,
        kahn(gs).len() < gs.len(),
    ensures
        !acyclic(gs),
{
    lemma_kahn_rec_props(gs, Seq::empty());
    let o = kahn(gs);
    lemma_missing_index(o, gs.len());
    let i0 = choose|x: usize| x < gs.len() && !o.contains(x);
    let p = lemma_stuck_chain(gs, o, i0, gs.len());
    if p.no_duplicates() {
        lemma_distinct_bounded_len(p, gs.len());
        assert(false);
    }
    let (a, b) = choose|a: int, b: int|
        0 <= a < p.len() && 0 <= b < p.len() && a != b && p[a] == p[b];
    let (lo, hi) = if a < b {
        (a, b)
    } else {
        (b, a)
    };
    let c = p.subrange(lo, hi + 1);
    assert(c.len() == hi + 1 - lo >= 2);
    assert forall|k: int| 0 <= k < c.len() - 1 implies edge_in(gs, #[trigger] c[k], c[k + 1]) by {
        assert(c[k] == p[lo + k]);
        assert(c[k + 1] == p[lo + k + 1]);
        assert(edge_in(gs, p[lo + k], p[lo + k + 1]));
    }
    assert(is_path(gs, c));
    assert(c.first() == p[lo]);
    assert(c.last() == p[hi]);
    assert(reaches(gs, p[lo], p[lo]));
}

/// The smallest eligible index, by scanning upward; matches the spec search.
#[verifier::loop_isolation(false)]
#[verifier::rlimit(50)]
fn next_eligible(
    succ: &Vec<Vec<usize>>,
    placed: &Vec<bool>,
    Ghost(o): Ghost<Seq<usize>>,
) -> (r: Option<usize>)
    requires
        placed@.len() == succ@.len(),
        forall|x: usize| x < succ@.len() ==> ((#[trigger] placed@[x as int]) <==> o.contains(x)),
        wf_adj(adj_view(*succ)),
    ensures
        r == min_eligible_from(adj_view(*succ), o, 0),
{
    let ghost gs = adj_view(*succ);
    let n = succ.len();
    let mut i: usize = 0;
    while i < n
        invariant
            i <= n,
            min_eligible_from(gs, o, 0) == min_eligible_from(gs, o, i as nat),
        decreases n - i,
    {
        if !placed[i] {
            let mut ok = true;
            let mut u: usize = 0;
            while u < n
                invariant
                    u <= n,
                    ok <==> (forall|u2: usize|
                        u2 < u ==> !(#[trigger] edge_in(gs, u2, i) && !o.contains(u2))),
                decreases n - u,
            {
                let ghost ok0 = ok;
                if !placed[u] {
                    if row_contains(&succ[u], i) {
                        assert(edge_in(gs, u, i)) by {
                            assert(gs[u as int] == succ@[u as int]@);
                        }
                        ok = false;
                    } else {
                        assert(!edge_in(gs, u, i)) by {
                            assert(gs[u as int] == succ@[u as int]@);
                        }
                    }
                } else {
                    assert(o.contains(u));
                }
                u += 1;
            }
            if ok {
                assert(eligible(gs, o, i)) by {
                    assert(!o.contains(i));
                    assert forall|u2: usize| #[trigger] edge_in(gs, u2, i) implies o.contains(u2) by {
                        assert(u2 < n);
                    }
                }
                assert(min_eligible_from(gs, o, i as nat) == Some(i));
                return Some(i);
            }
            assert(!eligible(gs, o, i)) by {
                let u2 = choose|u2: usize| u2 < n && edge_in(gs, u2, i) && !o.contains(u2);
                assert(edge_in(gs, u2, i) && !o.contains(u2));
            }
            assert(min_eligible_from(gs, o, i as nat) == min_eligible_from(gs, o, (i + 1) as nat));
        } else {
            assert(o.contains(i));
            assert(!eligible(gs, o, i));
            assert(min_eligible_from(gs, o, i as nat) == min_eligible_from(gs, o, (i + 1) as nat));
        }
        i += 1;
    }
    assert(min_eligible_from(gs, o, n as nat) == None::<usize>);
    None
}

impl Poset {
    /// One deterministic linear extension of the keys: the Kahn elimination
    /// with the smallest first-appearance index placed first.  On success the
    /// order respects every `succ` edge; otherwise the result carries every
    /// key that the cycle leaves unplaceable, in index order.
    #[verifier::loop_isolation(false)]
    #[verifier::rlimit(100)]
    #[verifier::spinoff_prover]
    pub fn topo_one(&self) -> (r: Result<Vec<String>, Vec<String>>)
        requires
            self.wf(),
        ensures
            r.is_ok() <==> kahn(self.succ_view()).len() == self.n(),
            r.is_ok() <==> acyclic(self.succ_view()),
            match r {
                Ok(ks) => ks@.len() == self.n() && forall|kk: int|
                    0 <= kk < ks@.len() ==> ks@[kk]@ == self.keys_view()[kahn(self.succ_view())[kk] as int],
                Err(bs) => bs@.len() == blocked_ids(self.succ_view()).len() && bs@.len() > 0
                    && forall|kk: int|
                    0 <= kk < bs@.len() ==> bs@[kk]@ == self.keys_view()[blocked_ids(
                        self.succ_view(),
                    )[kk] as int],
            },
    {
        let n = self.keys.len();
        let ghost gs = self.succ_view();
        assert(gs.len() == n);
        let mut placed = falses(n);
        let mut order: Vec<usize> = Vec::new();
        while order.len() < n
            invariant
                order@.len() <= n,
                placed@.len() == n,
                forall|x: usize| x < n ==> ((#[trigger] placed@[x as int]) <==> order@.contains(x)),
                order@.no_duplicates(),
                forall|kk: int| 0 <= kk < order@.len() ==> (#[trigger] order@[kk]) < n,
                topo_prefix(gs, order@),
                kahn_rec(gs, order@) == kahn(gs),
            decreases n - order@.len(),
        {
            let got = next_eligible(&self.succ, &placed, Ghost(order@));
            match got {
                Some(m) => {
                    let ghost o0 = order@;
                    proof {
                        lemma_min_eligible(gs, o0, 0);
                        assert(eligible(gs, o0, m));
                        assert(kahn_rec(gs, o0) == kahn_rec(gs, o0.push(m)));
                        lemma_push_no_dup(o0, m);
                        assert(topo_prefix(gs, o0.push(m))) by {
                            assert forall|kk: int, u: usize|
                                0 <= kk < o0.push(m).len() && #[trigger] edge_in(
                                    gs,
                                    u,
                                    o0.push(m)[kk],
                                ) implies o0.push(m).subrange(0, kk).contains(u) by {
                                if kk < o0.len() {
                                    assert(o0.push(m)[kk] == o0[kk]);
                                    assert(o0.subrange(0, kk).contains(u));
                                    assert(o0.push(m).subrange(0, kk) =~= o0.subrange(0, kk));
                                } else {
                                    assert(o0.push(m)[kk] == m);
                                    assert(o0.contains(u));
                                    assert(o0.push(m).subrange(0, kk) =~= o0);
                                }
                            }
                        }
                    }
                    placed[m] = true;
                    order.push(m);
                    proof {
                        assert(order@ == o0.push(m));
                        assert forall|x: usize| x < n
                            implies ((#[trigger] placed@[x as int]) <==> order@.contains(x)) by {
                            if x == m {
                                assert(order@[order@.len() - 1] == m);
                            } else {
                                if order@.contains(x) {
                                    let kk = choose|kk: int|
                                        0 <= kk < order@.len() && order@[kk] == x;
                                    assert(o0[kk] == x);
                                    assert(o0.contains(x));
                                }
                                if o0.contains(x) {
                                    let kk = choose|kk: int| 0 <= kk < o0.len() && o0[kk] == x;
                                    assert(order@[kk] == x);
                                }
                            }
                        }
                    }
                },
                None => {
                    proof {
                        lemma_min_eligible(gs, order@, 0);
                        assert(order@.len() < gs.len());
                        assert(kahn_rec(gs, order@) == order@);
                        assert(kahn(gs) == order@);
                        lemma_kahn_stuck_cycle(gs);
                    }
                    let mut bs: Vec<String> = Vec::new();
                    let mut x: usize = 0;
                    while x < n
                        invariant
                            x <= n,
                            bs@.len() == unplaced_upto(gs, x as nat).len(),
                            forall|kk: int|
                                0 <= kk < bs@.len() ==> (#[trigger] bs@[kk])@ == self.keys_view()[unplaced_upto(
                                    gs,
                                    x as nat,
                                )[kk] as int],
                            forall|kk: int|
                                0 <= kk < unplaced_upto(gs, x as nat).len() ==> (
                                #[trigger] unplaced_upto(gs, x as nat)[kk]) < n,
                        decreases n - x,
                    {
                        proof {
                            assert(unplaced_upto(gs, (x + 1) as nat) == if kahn(gs).contains(x) {
                                unplaced_upto(gs, x as nat)
                            } else {
                                unplaced_upto(gs, x as nat).push(x)
                            });
                        }
                        let ghost bs0 = bs@;
                        if !placed[x] {
                            assert(!kahn(gs).contains(x));
                            bs.push(self.keys[x].clone());
                            proof {
                                let up = unplaced_upto(gs, (x + 1) as nat);
                                assert(up == unplaced_upto(gs, x as nat).push(x));
                                assert forall|kk: int| 0 <= kk < bs@.len()
                                    implies (#[trigger] bs@[kk])@ == self.keys_view()[up[kk] as int] by {
                                    if kk < bs0.len() {
                                        assert(bs@[kk] == bs0[kk]);
                                        assert(up[kk] == unplaced_upto(gs, x as nat)[kk]);
                                    } else {
                                        assert(up[kk] == x);
                                    }
                                }
                            }
                        } else {
                            assert(kahn(gs).contains(x));
                        }
                        x += 1;
                    }
                    proof {
                        lemma_missing_index(order@, n as nat);
                        let x0 = choose|x0: usize| x0 < n && !order@.contains(x0);
                        assert(blocked_ids(gs) == unplaced_upto(gs, n as nat));
                        lemma_unplaced_contains(gs, n as nat, x0);
                        assert(blocked_ids(gs).len() > 0);
                    }
                    return Err(bs);
                },
            }
        }
        proof {
            assert(kahn_rec(gs, order@) == order@);
            assert(kahn(gs) == order@);
            lemma_kahn_complete_acyclic(gs);
        }
        let mut ks: Vec<String> = Vec::new();
        let mut kk: usize = 0;
        while kk < n
            invariant
                kk <= n,
                ks@.len() == kk,
                forall|t: int| 0 <= t < kk ==> (#[trigger] ks@[t])@ == self.keys_view()[order@[t] as int],
            decreases n - kk,
        {
            let idx2 = order[kk];
            ks.push(self.keys[idx2].clone());
            kk += 1;
        }
        Ok(ks)
    }
}

/// An index below `m` that the elimination skips appears among the unplaced.
proof fn lemma_unplaced_contains(gs: Seq<Seq<usize>>, m: nat, x: usize)
    requires
        x < m,
        !kahn(gs).contains(x),
    ensures
        unplaced_upto(gs, m).contains(x),
    decreases m,
{
    if x == m - 1 {
        assert(unplaced_upto(gs, m) == unplaced_upto(gs, (m - 1) as nat).push(x));
        assert(unplaced_upto(gs, m).last() == x);
    } else {
        lemma_unplaced_contains(gs, (m - 1) as nat, x);
        let up = unplaced_upto(gs, (m - 1) as nat);
        let kk = choose|kk: int| 0 <= kk < up.len() && up[kk] == x;
        if kahn(gs).contains((m - 1) as usize) {
            assert(unplaced_upto(gs, m) == up);
        } else {
            assert(unplaced_upto(gs, m) == up.push((m - 1) as usize));
            assert(unplaced_upto(gs, m)[kk] == x);
        }
    }
}

} // verus!
