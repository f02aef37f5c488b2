//! The library's general laws, stated over the same spec functions that the
//! public contracts use, and proved once and for all inputs.

use vstd::prelude::*;
use crate::graph::edge_in;
use crate::graph::reaches;
use crate::graph::reaches_avoiding;
use crate::graph::acyclic;
use crate::graph::is_path;
use crate::graph::path_avoids;
use crate::graph::lemma_reaches_avoiding_mono;
use crate::graph::lemma_reaches_congruent;
use crate::graph::lemma_reaches_mono;
use crate::graph::lemma_reaches_trans;
use crate::graph::lemma_subpath_reaches;
use crate::graph::lemma_edge_reaches;
use crate::poset::Poset;
use crate::poset::strictly_sorted;
use crate::poset::normalized_from;
use crate::poset::built_from;
use crate::poset::draft_of;
use crate::poset::pair_edge;
use crate::poset::ooa;
use crate::topo::kahn;
use crate::topo::blocked_ids;
use crate::topo::lemma_kahn_complete_props;

verus! {

/// Two strictly sorted rows with the same members are the same row.
pub proof fn lemma_sorted_unique(s1: Seq<usize>, s2: Seq<usize>)
    requires
        strictly_sorted(s1),
        strictly_sorted(s2),
        forall|x: usize| s1.contains(x) <==> s2.contains(x),
    ensures
        s1 == s2,
    decreases s1.len(),
{
    if s1.len() == 0 {
        if s2.len() > 0 {
            assert(s2.contains(s2[0]));
        }
        assert(s1 =~= s2);
    } else {
        assert(s1.contains(s1[0]));
        assert(s2.contains(s2[0]));
        let k1 = choose|k1: int| 0 <= k1 < s2.len() && s2[k1] == s1[0];
        let k2 = choose|k2: int| 0 <= k2 < s1.len() && s1[k2] == s2[0];
        assert(s2[0] <= s1[0]) by {
            if k1 > 0 {
                assert(s2[0] < s2[k1]);
            }
        }
        assert(s1[0] <= s2[0]) by {
            if k2 > 0 {
                assert(s1[0] < s1[k2]);
            }
        }
        let h = s1[0];
        let t1 = s1.drop_first();
        let t2 = s2.drop_first();
        assert(strictly_sorted(t1)) by {
            assert forall|i: int, j: int| 0 <= i < j < t1.len() implies t1[i] < t1[j] by {
                assert(t1[i] == s1[i + 1]);
                assert(t1[j] == s1[j + 1]);
            }
        }
        assert(strictly_sorted(t2)) by {
            assert forall|i: int, j: int| 0 <= i < j < t2.len() implies t2[i] < t2[j] by {
                assert(t2[i] == s2[i + 1]);
                assert(t2[j] == s2[j + 1]);
            }
        }
        assert forall|x: usize| t1.contains(x) <==> t2.contains(x) by {
            if t1.contains(x) {
                let k = choose|k: int| 0 <= k < t1.len() && t1[k] == x;
                assert(s1[k + 1] == x);
                assert(h < x);
                assert(s1.contains(x));
                assert(s2.contains(x));
                let k3 = choose|k3: int| 0 <= k3 < s2.len() && s2[k3] == x;
                assert(k3 != 0);
                assert(t2[k3 - 1] == x);
            }
            if t2.contains(x) {
                let k = choose|k: int| 0 <= k < t2.len() && t2[k] == x;
                assert(s2[k + 1] == x);
                assert(h < x);
                assert(s2.contains(x));
                assert(s1.contains(x));
                let k3 = choose|k3: int| 0 <= k3 < s1.len() && s1[k3] == x;
                assert(k3 != 0);
                assert(t1[k3 - 1] == x);
            }
        }
        lemma_sorted_unique(t1, t2);
        assert(s1 =~= s2) by {
            assert(s1.len() == t1.len() + 1);
            assert(s2.len() == t2.len() + 1);
            assert forall|i: int| 0 <= i < s1.len() implies s1[i] == s2[i] by {
                if i > 0 {
                    assert(t1[i - 1] == s1[i]);
                    assert(t2[i - 1] == s2[i]);
                }
            }
        }
    }
}

/// Reduction soundness: after normalization, no surviving edge `u -> v` has
/// an alternate path from `u` to `v` through the other surviving edges.
pub proof fn lemma_reduction_sound(
    ns: Seq<Seq<usize>>,
    na: Seq<Seq<usize>>,
    d: Seq<Seq<usize>>,
    n: nat,
)
    requires
        normalized_from(ns, na, d, n),
    ensures
        forall|u: usize, v: usize|
            #[trigger] edge_in(ns, u, v) ==> !reaches_avoiding(ns, u, v, u, v),
{
    assert forall|u: usize, v: usize| #[trigger]
        edge_in(ns, u, v) implies !reaches_avoiding(ns, u, v, u, v) by {
        assert(edge_in(d, u, v) && !reaches_avoiding(d, u, v, u, v));
        if reaches_avoiding(ns, u, v, u, v) {
            assert(forall|x: usize, y: usize| #[trigger] edge_in(ns, x, y) ==> edge_in(d, x, y));
            lemma_reaches_avoiding_mono(ns, d, u, v, u, v);
        }
    }
}

/// Completeness of the trichotomy: any two distinct indices that are not on a
/// common cycle of the draft are either ordered one way, ordered the other
/// way, or recorded as incomparable under the smaller index -- exactly one of
/// the three.
pub proof fn lemma_trichotomy(
    ns: Seq<Seq<usize>>,
    na: Seq<Seq<usize>>,
    d: Seq<Seq<usize>>,
    n: nat,
    i: usize,
    j: usize,
)
    requires
        normalized_from(ns, na, d, n),
        i < n,
        j < n,
        i != j,
        !(reaches(d, i, j) && reaches(d, j, i)),
    ensures
        reaches(d, i, j) || reaches(d, j, i) || edge_in(na, if i < j { i } else { j }, if i < j { j } else { i }),
        reaches(d, i, j) ==> !reaches(d, j, i) && !edge_in(na, if i < j { i } else { j }, if i < j { j } else { i }),
        reaches(d, j, i) ==> !reaches(d, i, j) && !edge_in(na, if i < j { i } else { j }, if i < j { j } else { i }),
        edge_in(na, if i < j { i } else { j }, if i < j { j } else { i }) ==> !reaches(d, i, j)
            && !reaches(d, j, i),
{
    let lo = if i < j { i } else { j };
    let hi = if i < j { j } else { i };
    assert(edge_in(na, lo, hi) <==> (lo < hi < n && !reaches(d, lo, hi) && !reaches(d, hi, lo)));
}

/// Idempotence of normalization on the successor table: normalizing an
/// already-normalized relation keeps every Hasse row exactly as it is.
#[verifier::rlimit(50)]
pub proof fn lemma_normalize_idempotent_succ(
    d: Seq<Seq<usize>>,
    s1: Seq<Seq<usize>>,
    a1: Seq<Seq<usize>>,
    s2: Seq<Seq<usize>>,
    a2: Seq<Seq<usize>>,
    n: nat,
)
    requires
        n <= usize::MAX,
        normalized_from(s1, a1, d, n),
        normalized_from(s2, a2, s1, n),
    ensures
        s2 == s1,
{
    assert(forall|x: usize, y: usize| #[trigger] edge_in(s1, x, y) ==> edge_in(d, x, y));
    assert forall|u: usize, v: usize| #[trigger]
        edge_in(s2, u, v) <==> edge_in(s1, u, v) by {
        if edge_in(s1, u, v) {
            if reaches_avoiding(s1, u, v, u, v) {
                lemma_reaches_avoiding_mono(s1, d, u, v, u, v);
                assert(!reaches_avoiding(d, u, v, u, v));
            }
            assert(edge_in(s2, u, v));
        }
    }
    assert forall|u: int| 0 <= u < n implies s2[u] == s1[u] by {
        let uu = u as usize;
        assert(uu as int == u);
        assert forall|x: usize| s2[u].contains(x) <==> s1[u].contains(x) by {
            if s2[u].contains(x) {
                let kk = choose|kk: int| 0 <= kk < s2[u].len() && s2[u][kk] == x;
                assert(s2[u][kk] == x);
                assert(x < s2.len());
                assert(edge_in(s2, uu, x));
                assert(edge_in(s1, uu, x));
                assert(s1[u].contains(x));
            }
            if s1[u].contains(x) {
                let kk = choose|kk: int| 0 <= kk < s1[u].len() && s1[u][kk] == x;
                assert(s1[u][kk] == x);
                assert(x < s1.len());
                assert(edge_in(s1, uu, x));
                assert(edge_in(s2, uu, x));
                assert(s2[u].contains(x));
            }
        }
        lemma_sorted_unique(s2[u], s1[u]);
    }
    assert(s2 =~= s1);
}

/// Determinism: the same batch of rows pins down the registry, the Hasse
/// rows, the incomparability rows, and hence the whole topological outcome.
#[verifier::rlimit(50)]
pub proof fn lemma_built_deterministic(p1: Poset, p2: Poset, rv: Seq<Seq<Seq<char>>>)
    requires
        ooa(rv).len() <= usize::MAX,
        built_from(p1, rv),
        built_from(p2, rv),
    ensures
        p1.keys_view() == p2.keys_view(),
        p1.succ_view() == p2.succ_view(),
        p1.amb_view() == p2.amb_view(),
        kahn(p1.succ_view()) == kahn(p2.succ_view()),
        blocked_ids(p1.succ_view()) == blocked_ids(p2.succ_view()),
{
    assert(p1.keys_view() == ooa(rv) && p2.keys_view() == ooa(rv));
    let kv = ooa(rv);
    assert(p1.n() == kv.len() && p2.n() == kv.len()) by {
        assert(p1.keys_view().len() == p1.n());
        assert(p2.keys_view().len() == p2.n());
    }
    let n = kv.len();
    let d1 = choose|d: Seq<Seq<usize>>|
        #[trigger] draft_of(d, rv, p1.keys_view()) && normalized_from(
            p1.succ_view(),
            p1.amb_view(),
            d,
            p1.n(),
        );
    let d2 = choose|d: Seq<Seq<usize>>|
        #[trigger] draft_of(d, rv, p2.keys_view()) && normalized_from(
            p2.succ_view(),
            p2.amb_view(),
            d,
            p2.n(),
        );
    assert(forall|u: usize, v: usize| #[trigger] edge_in(d1, u, v) <==> pair_edge(rv, kv, u, v));
    assert(forall|u: usize, v: usize| #[trigger] edge_in(d2, u, v) <==> pair_edge(rv, kv, u, v));
    assert(forall|u: usize, v: usize| #[trigger] edge_in(d1, u, v) <==> edge_in(d2, u, v));
    lemma_reaches_congruent(d1, d2);
    assert forall|u: int| 0 <= u < n implies p1.succ_view()[u] == p2.succ_view()[u] by {
        assert forall|x: usize| p1.succ_view()[u].contains(x) <==> p2.succ_view()[u].contains(x) by {
            if p1.succ_view()[u].contains(x) {
                assert(edge_in(p1.succ_view(), u as usize, x)) by {
                    let kk = choose|kk: int|
                        0 <= kk < p1.succ_view()[u].len() && p1.succ_view()[u][kk] == x;
                }
                assert(edge_in(d1, u as usize, x) && !reaches_avoiding(
                    d1,
                    u as usize,
                    x,
                    u as usize,
                    x,
                ));
                assert(edge_in(p2.succ_view(), u as usize, x)) by {
                    assert(edge_in(d2, u as usize, x));
                    assert(!reaches_avoiding(d2, u as usize, x, u as usize, x));
                }
            }
            if p2.succ_view()[u].contains(x) {
                assert(edge_in(p2.succ_view(), u as usize, x)) by {
                    let kk = choose|kk: int|
                        0 <= kk < p2.succ_view()[u].len() && p2.succ_view()[u][kk] == x;
                }
                assert(edge_in(d2, u as usize, x) && !reaches_avoiding(
                    d2,
                    u as usize,
                    x,
                    u as usize,
                    x,
                ));
                assert(edge_in(p1.succ_view(), u as usize, x)) by {
                    assert(edge_in(d1, u as usize, x));
                    assert(!reaches_avoiding(d1, u as usize, x, u as usize, x));
                }
            }
        }
        lemma_sorted_unique(p1.succ_view()[u], p2.succ_view()[u]);
    }
    assert(p1.succ_view() =~= p2.succ_view());
    assert forall|u: int| 0 <= u < n implies p1.amb_view()[u] == p2.amb_view()[u] by {
        assert forall|x: usize| p1.amb_view()[u].contains(x) <==> p2.amb_view()[u].contains(x) by {
            if p1.amb_view()[u].contains(x) {
                assert(edge_in(p1.amb_view(), u as usize, x)) by {
                    let kk = choose|kk: int|
                        0 <= kk < p1.amb_view()[u].len() && p1.amb_view()[u][kk] == x;
                }
                assert(edge_in(p2.amb_view(), u as usize, x));
            }
            if p2.amb_view()[u].contains(x) {
                assert(edge_in(p2.amb_view(), u as usize, x)) by {
                    let kk = choose|kk: int|
                        0 <= kk < p2.amb_view()[u].len() && p2.amb_view()[u][kk] == x;
                }
                assert(edge_in(p1.amb_view(), u as usize, x));
            }
        }
        lemma_sorted_unique(p1.amb_view()[u], p2.amb_view()[u]);
    }
    assert(p1.amb_view() =~= p2.amb_view());
}

/// `s1` keeps exactly the draft edges of `d` that no alternate path implies.
pub open spec fn reduction_of(s1: Seq<Seq<usize>>, d: Seq<Seq<usize>>) -> bool {
    s1.len() == d.len() && (forall|x: usize, y: usize|
        #[trigger] edge_in(s1, x, y) <==> (edge_in(d, x, y) && !reaches_avoiding(d, x, y, x, y)))
}

/// The indices lying on some directed path from `u` to `v`.
pub open spec fn between(d: Seq<Seq<usize>>, u: usize, v: usize) -> Set<int> {
    Set::new(|w: int| 0 <= w < d.len() && reaches(d, u, w as usize) && reaches(d, w as usize, v))
}

proof fn lemma_between_finite(d: Seq<Seq<usize>>, u: usize, v: usize)
    ensures
        between(d, u, v).finite(),
        between(d, u, v).len() <= d.len(),
{
    let r = vstd::set_lib::set_int_range(0, d.len() as int);
    vstd::set_lib::lemma_int_range(0, d.len() as int);
    assert(between(d, u, v).subset_of(r));
    vstd::set_lib::lemma_len_subset(between(d, u, v), r);
}

proof fn lemma_strict_subset_len(s1: Set<int>, s2: Set<int>, x: int)
    requires
        s2.finite(),
        s1.subset_of(s2),
        s2.contains(x),
        !s1.contains(x),
    ensures
        s1.len() < s2.len(),
{
    assert(s1.subset_of(s2.remove(x)));
    vstd::set::axiom_set_remove_finite(s2, x);
    vstd::set::axiom_set_remove_len(s2, x);
    vstd::set_lib::lemma_len_subset(s1, s2.remove(x));
}

/// Chains of reachability facts compose along a vertex sequence.
proof fn lemma_chain_sim(s1: Seq<Seq<usize>>, p: Seq<usize>)
    requires
        p.len() >= 2,
        forall|k: int| 0 <= k < p.len() - 1 ==> reaches(s1, #[trigger] p[k], p[k + 1]),
    ensures
        reaches(s1, p.first(), p.last()),
    decreases p.len(),
{
    if p.len() == 2 {
        assert(reaches(s1, p[0], p[1]));
    } else {
        let q = p.drop_last();
        assert(q.len() == p.len() - 1);
        assert forall|k: int| 0 <= k < q.len() - 1 implies reaches(s1, #[trigger] q[k], q[k + 1]) by {
            assert(q[k] == p[k]);
            assert(q[k + 1] == p[k + 1]);
            assert(reaches(s1, p[k], p[k + 1]));
        }
        lemma_chain_sim(s1, q);
        assert(reaches(s1, p[p.len() - 2], p[p.len() - 1]));
        assert(q.last() == p[p.len() - 2]);
        assert(q.first() == p.first());
        lemma_reaches_trans(s1, p.first(), q.last(), p.last());
    }
}

/// In an acyclic draft, the endpoints of every draft edge stay joined in the
/// reduction; by strong induction on the set of indices lying between them.
#[verifier::rlimit(50)]
proof fn lemma_edge_sim(d: Seq<Seq<usize>>, s1: Seq<Seq<usize>>, u: usize, v: usize)
    requires
        d.len() <= usize::MAX,
        acyclic(d),
        reduction_of(s1, d),
        edge_in(d, u, v),
    ensures
        reaches(s1, u, v),
    decreases between(d, u, v).len(),
{
    if edge_in(s1, u, v) {
        lemma_edge_reaches(s1, u, v);
    } else {
        assert(reaches_avoiding(d, u, v, u, v));
        let p = choose|p: Seq<usize>|
            is_path(d, p) && p.first() == u && p.last() == v && path_avoids(p, u, v);
        lemma_between_finite(d, u, v);
        assert forall|k: int| 0 <= k < p.len() - 1 implies reaches(s1, #[trigger] p[k], p[k + 1]) by {
            let a = p[k];
            let b = p[k + 1];
            assert(edge_in(d, a, b));
            if a == u && k != 0 {
                lemma_subpath_reaches(d, p, 0, k);
                assert(reaches(d, u, u));
            }
            assert forall|w: int| between(d, a, b).contains(w)
                implies between(d, u, v).contains(w) by {
                let ws = w as usize;
                assert(reaches(d, a, ws) && reaches(d, ws, b));
                if k == 0 {
                    assert(a == u);
                } else {
                    lemma_subpath_reaches(d, p, 0, k);
                    lemma_reaches_trans(d, u, a, ws);
                }
                if k + 1 == p.len() - 1 {
                    assert(b == v);
                } else {
                    lemma_subpath_reaches(d, p, k + 1, p.len() - 1);
                    lemma_reaches_trans(d, ws, b, v);
                }
            }
            if k == 0 {
                assert(a == u);
                assert(b != v);
                lemma_edge_reaches(d, u, b);
                lemma_subpath_reaches(d, p, k + 1, p.len() - 1);
                assert(between(d, u, v).contains(b as int));
                assert(!between(d, a, b).contains(b as int)) by {
                    if between(d, a, b).contains(b as int) {
                        assert(reaches(d, b, b));
                    }
                }
                lemma_strict_subset_len(between(d, a, b), between(d, u, v), b as int);
            } else {
                assert(a != u);
                lemma_subpath_reaches(d, p, 0, k);
                lemma_edge_reaches(d, a, b);
                if k + 1 == p.len() - 1 {
                    assert(b == v);
                } else {
                    lemma_subpath_reaches(d, p, k + 1, p.len() - 1);
                    lemma_reaches_trans(d, a, b, v);
                }
                assert(between(d, u, v).contains(a as int));
                assert(!between(d, a, b).contains(a as int)) by {
                    if between(d, a, b).contains(a as int) {
                        assert(reaches(d, a, a));
                    }
                }
                lemma_strict_subset_len(between(d, a, b), between(d, u, v), a as int);
            }
            lemma_edge_sim(d, s1, a, b);
        }
        lemma_chain_sim(s1, p);
    }
}

/// For an acyclic draft, the Hasse reduction preserves reachability exactly.
pub proof fn lemma_reduction_preserves_reach(d: Seq<Seq<usize>>, s1: Seq<Seq<usize>>)
    requires
        d.len() <= usize::MAX,
        acyclic(d),
        reduction_of(s1, d),
    ensures
        forall|u: usize, v: usize| #[trigger] reaches(d, u, v) <==> reaches(s1, u, v),
{
    assert forall|u: usize, v: usize| #[trigger] reaches(d, u, v) <==> reaches(s1, u, v) by {
        if reaches(d, u, v) {
            let p = choose|p: Seq<usize>| is_path(d, p) && p.first() == u && p.last() == v;
            assert forall|k: int| 0 <= k < p.len() - 1
                implies reaches(s1, #[trigger] p[k], p[k + 1]) by {
                assert(edge_in(d, p[k], p[k + 1]));
                lemma_edge_sim(d, s1, p[k], p[k + 1]);
            }
            lemma_chain_sim(s1, p);
        }
        if reaches(s1, u, v) {
            assert(forall|x: usize, y: usize| #[trigger] edge_in(s1, x, y) ==> edge_in(d, x, y));
            lemma_reaches_mono(s1, d, u, v);
        }
    }
}

/// Idempotence of normalization on the incomparability table, for drafts
/// without directed cycles.
#[verifier::rlimit(50)]
pub proof fn lemma_normalize_idempotent_amb(
    d: Seq<Seq<usize>>,
    s1: Seq<Seq<usize>>,
    a1: Seq<Seq<usize>>,
    s2: Seq<Seq<usize>>,
    a2: Seq<Seq<usize>>,
    n: nat,
)
    requires
        n <= usize::MAX,
        acyclic(d),
        normalized_from(s1, a1, d, n),
        normalized_from(s2, a2, s1, n),
    ensures
        a2 == a1,
{
    assert(reduction_of(s1, d));
    lemma_reduction_preserves_reach(d, s1);
    assert forall|u: int| 0 <= u < n implies a2[u] == a1[u] by {
        let uu = u as usize;
        assert(uu as int == u);
        assert forall|x: usize| a2[u].contains(x) <==> a1[u].contains(x) by {
            if a2[u].contains(x) {
                let kk = choose|kk: int| 0 <= kk < a2[u].len() && a2[u][kk] == x;
                assert(a2[u][kk] == x);
                assert(x < a2.len());
                assert(edge_in(a2, uu, x));
                assert(uu < x < n && !reaches(s1, uu, x) && !reaches(s1, x, uu));
                assert(!reaches(d, uu, x) && !reaches(d, x, uu));
                assert(edge_in(a1, uu, x));
                assert(a1[u].contains(x));
            }
            if a1[u].contains(x) {
                let kk = choose|kk: int| 0 <= kk < a1[u].len() && a1[u][kk] == x;
                assert(a1[u][kk] == x);
                assert(x < a1.len());
                assert(edge_in(a1, uu, x));
                assert(uu < x < n && !reaches(d, uu, x) && !reaches(d, x, uu));
                assert(!reaches(s1, uu, x) && !reaches(s1, x, uu));
                assert(edge_in(a2, uu, x));
                assert(a2[u].contains(x));
            }
        }
        lemma_sorted_unique(a2[u], a1[u]);
    }
    assert(a2 =~= a1);
}

/// Idempotence of normalization, whole: on a draft without directed cycles a
/// second normalization reproduces both tables exactly.
pub proof fn lemma_normalize_idempotent(
    d: Seq<Seq<usize>>,
    s1: Seq<Seq<usize>>,
    a1: Seq<Seq<usize>>,
    s2: Seq<Seq<usize>>,
    a2: Seq<Seq<usize>>,
    n: nat,
)
    requires
        n <= usize::MAX,
        acyclic(d),
        normalized_from(s1, a1, d, n),
        normalized_from(s2, a2, s1, n),
    ensures
        s2 == s1,
        a2 == a1,
{
    lemma_normalize_idempotent_succ(d, s1, a1, s2, a2, n);
    lemma_normalize_idempotent_amb(d, s1, a1, s2, a2, n);
}

/// Topological validity: a successful extraction lists each index exactly
/// once, and every surviving edge points forward in it.
pub proof fn lemma_topo_valid(p: Poset)
    requires
        p.wf(),
        p.n() <= usize::MAX,
        kahn(p.succ_view()).len() == p.n(),
    ensures
        kahn(p.succ_view()).no_duplicates(),
        forall|x: usize| x < p.n() ==> kahn(p.succ_view()).contains(x),
        forall|kk: int|
            0 <= kk < kahn(p.succ_view()).len() ==> (#[trigger] kahn(p.succ_view())[kk]) < p.n(),
        forall|k1: int, k2: int|
            0 <= k1 < kahn(p.succ_view()).len() && 0 <= k2 < kahn(p.succ_view()).len() && edge_in(
                p.succ_view(),
                kahn(p.succ_view())[k1],
                kahn(p.succ_view())[k2],
            ) ==> k1 < k2,
{
    lemma_kahn_complete_props(p.succ_view());
}

} // verus!
