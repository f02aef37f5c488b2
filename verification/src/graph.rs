//! Directed graphs over the dense indices `0..n`, given as adjacency lists:
//! `g[u]` lists the direct successors of `u`.  Reachability is defined by
//! directed walks of one or more edges, so an index reaches itself only when
//! it lies on a cycle.

use vstd::prelude::*;

verus! {

/// The sequence-of-sequences view of an adjacency list.
pub open spec fn adj_view(g: Vec<Vec<usize>>) -> Seq<Seq<usize>> {
    Seq::new(g@.len(), |i: int| g@[i]@)
}

/// Every listed successor is itself a valid index of the graph.
pub open spec fn wf_adj(gs: Seq<Seq<usize>>) -> bool {
    forall|u: int, k: int|
        0 <= u < gs.len() && 0 <= k < gs[u].len() ==> (#[trigger] gs[u][k]) < gs.len()
}

/// The direct edge `u -> v` is present.
pub open spec fn edge_in(gs: Seq<Seq<usize>>, u: usize, v: usize) -> bool {
    u < gs.len() && v < gs.len() && gs[u as int].contains(v)
}

/// `p` is a directed walk: at least two vertices, consecutive ones joined by edges.
pub open spec fn is_path(gs: Seq<Seq<usize>>, p: Seq<usize>) -> bool {
    p.len() >= 2 && forall|k: int| 0 <= k < p.len() - 1 ==> edge_in(gs, #[trigger] p[k], p[k + 1])
}

/// A directed path of one or more edges leads from `u` to `v`.
pub open spec fn reaches(gs: Seq<Seq<usize>>, u: usize, v: usize) -> bool {
    exists|p: Seq<usize>| is_path(gs, p) && p.first() == u && p.last() == v
}

/// No step of `p` uses the edge `a -> b`.
pub open spec fn path_avoids(p: Seq<usize>, a: usize, b: usize) -> bool {
    forall|k: int| 0 <= k < p.len() - 1 ==> !((#[trigger] p[k]) == a && p[k + 1] == b)
}

/// A path from `u` to `v` exists that never takes the edge `a -> b`.
pub open spec fn reaches_avoiding(gs: Seq<Seq<usize>>, u: usize, v: usize, a: usize, b: usize) -> bool {
    exists|p: Seq<usize>| is_path(gs, p) && p.first() == u && p.last() == v && path_avoids(p, a, b)
}

/// No vertex lies on a directed cycle.
pub open spec fn acyclic(gs: Seq<Seq<usize>>) -> bool {
    forall|u: usize| !reaches(gs, u, u)
}

/// A single edge is a path.
pub proof fn lemma_edge_reaches(gs: Seq<Seq<usize>>, u: usize, v: usize)
    requires
        edge_in(gs, u, v),
    ensures
        reaches(gs, u, v),
{
    let p = seq![u, v];
    assert(p.len() == 2);
    assert(p[0] == u && p[1] == v);
    assert(forall|k: int| 0 <= k < p.len() - 1 ==> edge_in(gs, #[trigger] p[k], p[k + 1]));
    assert(is_path(gs, p) && p.first() == u && p.last() == v);
}

/// Extending a path by one more edge.
pub proof fn lemma_reaches_step(gs: Seq<Seq<usize>>, u: usize, v: usize, w: usize)
    requires
        reaches(gs, u, v),
        edge_in(gs, v, w),
    ensures
        reaches(gs, u, w),
{
    let p = choose|p: Seq<usize>| is_path(gs, p) && p.first() == u && p.last() == v;
    let q = p.push(w);
    assert forall|k: int| 0 <= k < q.len() - 1 implies edge_in(gs, #[trigger] q[k], q[k + 1]) by {
        if k < p.len() - 1 {
            assert(q[k] == p[k]);
            assert(q[k + 1] == p[k + 1]);
        } else {
            assert(k == p.len() - 1);
            assert(q[k] == p[k]);
            assert(p[k] == p.last());
            assert(q[k + 1] == w);
        }
    }
    assert(is_path(gs, q));
    assert(q[0] == p[0]);
    assert(q.first() == u && q.last() == w);
}

/// Reachability transfers to any graph with at least the same edges.
pub proof fn lemma_reaches_mono(g1: Seq<Seq<usize>>, g2: Seq<Seq<usize>>, u: usize, v: usize)
    requires
        forall|a: usize, b: usize| #[trigger] edge_in(g1, a, b) ==> edge_in(g2, a, b),
        reaches(g1, u, v),
    ensures
        reaches(g2, u, v),
{
    let p = choose|p: Seq<usize>| is_path(g1, p) && p.first() == u && p.last() == v;
    assert forall|k: int| 0 <= k < p.len() - 1 implies edge_in(g2, #[trigger] p[k], p[k + 1]) by {
        assert(edge_in(g1, p[k], p[k + 1]));
    }
    assert(is_path(g2, p) && p.first() == u && p.last() == v);
}

/// The same, for paths that avoid a fixed edge.
pub proof fn lemma_reaches_avoiding_mono(
    g1: Seq<Seq<usize>>,
    g2: Seq<Seq<usize>>,
    u: usize,
    v: usize,
    a: usize,
    b: usize,
)
    requires
        forall|x: usize, y: usize| #[trigger] edge_in(g1, x, y) ==> edge_in(g2, x, y),
        reaches_avoiding(g1, u, v, a, b),
    ensures
        reaches_avoiding(g2, u, v, a, b),
{
    let p = choose|p: Seq<usize>|
        is_path(g1, p) && p.first() == u && p.last() == v && path_avoids(p, a, b);
    assert forall|k: int| 0 <= k < p.len() - 1 implies edge_in(g2, #[trigger] p[k], p[k + 1]) by {
        assert(edge_in(g1, p[k], p[k + 1]));
    }
    assert(is_path(g2, p) && p.first() == u && p.last() == v && path_avoids(p, a, b));
}

/// Two graphs with the same edges have the same reachability.
pub proof fn lemma_reaches_congruent(g1: Seq<Seq<usize>>, g2: Seq<Seq<usize>>)
    requires
        forall|a: usize, b: usize| #[trigger] edge_in(g1, a, b) <==> edge_in(g2, a, b),
    ensures
        forall|u: usize, v: usize| #[trigger] reaches(g1, u, v) <==> reaches(g2, u, v),
        forall|u: usize, v: usize, a: usize, b: usize|
            #[trigger] reaches_avoiding(g1, u, v, a, b) <==> reaches_avoiding(g2, u, v, a, b),
{
    assert forall|u: usize, v: usize| #[trigger] reaches(g1, u, v) <==> reaches(g2, u, v) by {
        if reaches(g1, u, v) {
            lemma_reaches_mono(g1, g2, u, v);
        }
        if reaches(g2, u, v) {
            lemma_reaches_mono(g2, g1, u, v);
        }
    }
    assert forall|u: usize, v: usize, a: usize, b: usize|
        #[trigger] reaches_avoiding(g1, u, v, a, b) <==> reaches_avoiding(g2, u, v, a, b) by {
        if reaches_avoiding(g1, u, v, a, b) {
            lemma_reaches_avoiding_mono(g1, g2, u, v, a, b);
        }
        if reaches_avoiding(g2, u, v, a, b) {
            lemma_reaches_avoiding_mono(g2, g1, u, v, a, b);
        }
    }
}

/// Reaching while avoiding `a -> b` is exactly reaching in the graph without that edge.
pub proof fn lemma_minus_edge_bridge(
    gm: Seq<Seq<usize>>,
    gs: Seq<Seq<usize>>,
    a: usize,
    b: usize,
)
    requires
        forall|x: usize, y: usize|
            #[trigger] edge_in(gm, x, y) <==> edge_in(gs, x, y) && !(x == a && y == b),
    ensures
        forall|u: usize, v: usize|
            #[trigger] reaches(gm, u, v) <==> reaches_avoiding(gs, u, v, a, b),
{
    assert forall|u: usize, v: usize|
        #[trigger] reaches(gm, u, v) <==> reaches_avoiding(gs, u, v, a, b) by {
        if reaches(gm, u, v) {
            let p = choose|p: Seq<usize>| is_path(gm, p) && p.first() == u && p.last() == v;
            assert forall|k: int| 0 <= k < p.len() - 1 implies edge_in(gs, #[trigger] p[k], p[k + 1])
                && !(p[k] == a && p[k + 1] == b) by {
                assert(edge_in(gm, p[k], p[k + 1]));
            }
            assert(is_path(gs, p) && path_avoids(p, a, b));
            assert(p.first() == u && p.last() == v);
        }
        if reaches_avoiding(gs, u, v, a, b) {
            let p = choose|p: Seq<usize>|
                is_path(gs, p) && p.first() == u && p.last() == v && path_avoids(p, a, b);
            assert forall|k: int| 0 <= k < p.len() - 1 implies edge_in(gm, #[trigger] p[k], p[k + 1]) by {
                assert(edge_in(gs, p[k], p[k + 1]));
                assert(!(p[k] == a && p[k + 1] == b));
            }
            assert(is_path(gm, p) && p.first() == u && p.last() == v);
        }
    }
}

/// Reachability composes: paths concatenate at their shared endpoint.
pub proof fn lemma_reaches_trans(gs: Seq<Seq<usize>>, a: usize, b: usize, c: usize)
    requires
        reaches(gs, a, b),
        reaches(gs, b, c),
    ensures
        reaches(gs, a, c),
{
    let p1 = choose|p: Seq<usize>| is_path(gs, p) && p.first() == a && p.last() == b;
    let p2 = choose|p: Seq<usize>| is_path(gs, p) && p.first() == b && p.last() == c;
    let q = p1 + p2.drop_first();
    assert(q.len() == p1.len() + p2.len() - 1);
    assert forall|k: int| 0 <= k < q.len() - 1 implies edge_in(gs, #[trigger] q[k], q[k + 1]) by {
        if k < p1.len() - 1 {
            assert(q[k] == p1[k]);
            assert(q[k + 1] == p1[k + 1]);
            assert(edge_in(gs, p1[k], p1[k + 1]));
        } else if k == p1.len() - 1 {
            assert(q[k] == p1[k]);
            assert(p1[k] == p1.last());
            assert(q[k + 1] == p2.drop_first()[0]);
            assert(p2.drop_first()[0] == p2[1]);
            assert(edge_in(gs, p2[0], p2[1]));
        } else {
            assert(q[k] == p2.drop_first()[k - p1.len()]);
            assert(q[k + 1] == p2.drop_first()[k + 1 - p1.len()]);
            assert(p2.drop_first()[k - p1.len()] == p2[k - p1.len() + 1]);
            assert(p2.drop_first()[k + 1 - p1.len()] == p2[k - p1.len() + 2]);
            assert(edge_in(gs, p2[k - p1.len() + 1], p2[k - p1.len() + 2]));
        }
    }
    assert(is_path(gs, q));
    assert(q[0] == p1[0]);
    assert(q.last() == p2.drop_first()[p2.len() - 2]);
    assert(p2.drop_first()[p2.len() - 2] == p2[p2.len() - 1]);
    assert(q.first() == a && q.last() == c);
}

/// Any segment of a path joins its endpoints.
pub proof fn lemma_subpath_reaches(gs: Seq<Seq<usize>>, p: Seq<usize>, i: int, j: int)
    requires
        is_path(gs, p),
        0 <= i < j < p.len(),
    ensures
        reaches(gs, p[i], p[j]),
{
    let q = p.subrange(i, j + 1);
    assert(q.len() == j + 1 - i >= 2);
    assert forall|k: int| 0 <= k < q.len() - 1 implies edge_in(gs, #[trigger] q[k], q[k + 1]) by {
        assert(q[k] == p[i + k]);
        assert(q[k + 1] == p[i + k + 1]);
        assert(edge_in(gs, p[i + k], p[i + k + 1]));
    }
    assert(is_path(gs, q));
    assert(q.first() == p[i] && q.last() == p[j]);
}

/// Any path out of `s` ends inside a set of marks that contains the successors
/// of `s` and is closed under following edges.
proof fn lemma_path_marked(gs: Seq<Seq<usize>>, s: usize, m: Seq<bool>, p: Seq<usize>)
    requires
        m.len() == gs.len(),
        forall|w: usize| #[trigger] edge_in(gs, s, w) ==> m[w as int],
        forall|u: usize, w: usize| m[u as int] && #[trigger] edge_in(gs, u, w) ==> m[w as int],
        is_path(gs, p),
        p.first() == s,
    ensures
        m[p.last() as int],
    decreases p.len(),
{
    if p.len() == 2 {
        assert(edge_in(gs, p[0], p[1]));
    } else {
        let q = p.drop_last();
        assert(q.len() == p.len() - 1);
        assert forall|k: int| 0 <= k < q.len() - 1 implies edge_in(gs, #[trigger] q[k], q[k + 1]) by {
            assert(q[k] == p[k]);
            assert(q[k + 1] == p[k + 1]);
            assert(edge_in(gs, p[k], p[k + 1]));
        }
        assert(is_path(gs, q));
        assert(q[0] == p[0]);
        lemma_path_marked(gs, s, m, q);
        assert(edge_in(gs, p[p.len() - 2], p[p.len() - 1]));
        assert(q.last() == p[p.len() - 2]);
    }
}

/// Completeness of a closed mark table: it covers everything reachable from `s`.
pub proof fn lemma_closed_complete(gs: Seq<Seq<usize>>, s: usize, m: Seq<bool>)
    requires
        m.len() == gs.len(),
        forall|w: usize| #[trigger] edge_in(gs, s, w) ==> m[w as int],
        forall|u: usize, w: usize| m[u as int] && #[trigger] edge_in(gs, u, w) ==> m[w as int],
    ensures
        forall|v: usize| v < gs.len() && #[trigger] reaches(gs, s, v) ==> m[v as int],
{
    assert forall|v: usize| v < gs.len() && #[trigger] reaches(gs, s, v) implies m[v as int] by {
        let p = choose|p: Seq<usize>| is_path(gs, p) && p.first() == s && p.last() == v;
        lemma_path_marked(gs, s, m, p);
    }
}

/// The set of indices marked true in a table of flags.
pub open spec fn marked(m: Seq<bool>) -> Set<int> {
    Set::new(|i: int| 0 <= i < m.len() && m[i])
}

pub proof fn lemma_marked_le(m: Seq<bool>)
    ensures
        marked(m).finite(),
        marked(m).len() <= m.len(),
{
    let r = vstd::set_lib::set_int_range(0, m.len() as int);
    vstd::set_lib::lemma_int_range(0, m.len() as int);
    assert(marked(m).subset_of(r));
    vstd::set_lib::lemma_len_subset(marked(m), r);
}

pub proof fn lemma_marked_update(m: Seq<bool>, w: int)
    requires
        0 <= w < m.len(),
        !m[w],
    ensures
        marked(m.update(w, true)).finite(),
        marked(m.update(w, true)).len() == marked(m).len() + 1,
{
    lemma_marked_le(m);
    assert(marked(m.update(w, true)) =~= marked(m).insert(w));
    vstd::set::axiom_set_insert_len(marked(m), w);
}

/// A vector of `n` cleared flags.
pub fn falses(n: usize) -> (r: Vec<bool>)
    ensures
        r@.len() == n,
        forall|i: int| 0 <= i < n ==> !r@[i],
{
    let mut r: Vec<bool> = Vec::new();
    while r.len() < n
        invariant
            r@.len() <= n,
            forall|i: int| 0 <= i < r@.len() ==> !r@[i],
        decreases n - r@.len(),
    {
        r.push(false);
    }
    r
}

/// Linear membership test on one adjacency row.
pub fn row_contains(row: &Vec<usize>, x: usize) -> (r: bool)
    ensures
        r == row@.contains(x),
{
    let mut k: usize = 0;
    while k < row.len()
        invariant
            k <= row@.len(),
            forall|k2: int| 0 <= k2 < k ==> row@[k2] != x,
        decreases row@.len() - k,
    {
        if row[k] == x {
            assert(row@[k as int] == x);
            return true;
        }
        k += 1;
    }
    false
}

/// Marks every vertex reachable from `s` by one or more edges, by a worklist
/// search over the adjacency lists.
#[verifier::rlimit(50)]
#[verifier::spinoff_prover]
pub fn reach_from(g: &Vec<Vec<usize>>, s: usize) -> (r: Vec<bool>)
    requires
        wf_adj(adj_view(*g)),
        s < g@.len(),
    ensures
        r@.len() == g@.len(),
        forall|v: usize| v < g@.len() ==> (r@[v as int] <==> reaches(adj_view(*g), s, v)),
{
    let ghost gs = adj_view(*g);
    let n = g.len();
    let mut visited = falses(n);
    let mut stack: Vec<usize> = Vec::new();

    proof {
        lemma_marked_le(visited@);
    }

    // seed: the direct successors of s
    let srow_len = g[s].len();
    let mut k: usize = 0;
    while k < srow_len
        invariant
            gs == adj_view(*g),
            wf_adj(gs),
            s < n,
            n == g@.len(),
            visited@.len() == n,
            srow_len == g@[s as int]@.len(),
            k <= srow_len,
            stack@.no_duplicates(),
            forall|j: int| 0 <= j < stack@.len() ==> (#[trigger] stack@[j]) < n
                && visited@[stack@[j] as int],
            forall|v: usize| v < n && visited@[v as int] ==> reaches(gs, s, v),
            forall|k2: int| 0 <= k2 < k ==> visited@[g@[s as int]@[k2] as int],
            forall|u2: usize, w: usize|
                u2 < n && visited@[u2 as int] && !stack@.contains(u2)
                    && #[trigger] edge_in(gs, u2, w) ==> visited@[w as int],
        decreases srow_len - k,
    {
        let w = g[s][k];
        assert(gs.len() == n);
        assert(gs[s as int] == g@[s as int]@);
        assert(gs[s as int][k as int] == w);
        assert(w < n);
        assert(edge_in(gs, s, w)) by {
            assert(gs[s as int].contains(w));
        }
        if !visited[w] {
            let ghost st_before = stack@;
            let ghost vis_before = visited@;
            proof {
                lemma_marked_update(visited@, w as int);
                lemma_edge_reaches(gs, s, w);
                assert(!st_before.contains(w)) by {
                    if st_before.contains(w) {
                        let j = choose|j: int| 0 <= j < st_before.len() && st_before[j] == w;
                        assert(vis_before[st_before[j] as int]);
                    }
                }
            }
            visited[w] = true;
            stack.push(w);
            proof {
                assert(stack@[stack@.len() - 1] == w);
                assert(stack@.contains(w));
                assert forall|x: usize| st_before.contains(x) implies stack@.contains(x) by {
                    let j = choose|j: int| 0 <= j < st_before.len() && st_before[j] == x;
                    assert(stack@[j] == x);
                }
                assert(stack@.no_duplicates()) by {
                    assert forall|i: int, j: int|
                        0 <= i < stack@.len() && 0 <= j < stack@.len() && i != j
                        implies stack@[i] != stack@[j] by {
                        if i < stack@.len() - 1 && j < stack@.len() - 1 {
                            assert(stack@[i] == st_before[i]);
                            assert(stack@[j] == st_before[j]);
                        } else if i == stack@.len() - 1 {
                            assert(stack@[j] == st_before[j]);
                            assert(st_before.contains(st_before[j]));
                        } else {
                            assert(stack@[i] == st_before[i]);
                            assert(st_before.contains(st_before[i]));
                        }
                    }
                }
            }
        }
        k += 1;
    }

    assert forall|w: usize| #[trigger] edge_in(gs, s, w) implies visited@[w as int] by {
        let k2 = choose|k2: int| 0 <= k2 < gs[s as int].len() && gs[s as int][k2] == w;
        assert(g@[s as int]@[k2] == w);
    }

    proof {
        lemma_marked_le(visited@);
    }

    while stack.len() > 0
        invariant
            gs == adj_view(*g),
            wf_adj(gs),
            s < n,
            n == g@.len(),
            visited@.len() == n,
            marked(visited@).len() <= n,
            stack@.no_duplicates(),
            forall|j: int| 0 <= j < stack@.len() ==> (#[trigger] stack@[j]) < n
                && visited@[stack@[j] as int],
            forall|v: usize| v < n && visited@[v as int] ==> reaches(gs, s, v),
            forall|w: usize| #[trigger] edge_in(gs, s, w) ==> visited@[w as int],
            forall|u2: usize, w: usize|
                u2 < n && visited@[u2 as int] && !stack@.contains(u2)
                    && #[trigger] edge_in(gs, u2, w) ==> visited@[w as int],
        decreases n - marked(visited@).len(), stack@.len(),
    {
        let ghost m0 = marked(visited@).len();
        let ghost l0 = stack@.len();
        let ghost stack0 = stack@;
        let u = match stack.pop() {
            Some(x) => x,
            None => {
                proof {
                    assert(false);
                }
                0
            },
        };
        assert(u == stack0.last());
        assert(stack@ == stack0.drop_last());
        assert(!stack@.contains(u)) by {
            if stack@.contains(u) {
                let j = choose|j: int| 0 <= j < stack@.len() && stack@[j] == u;
                assert(stack0[j] == u);
                assert(stack0[l0 as int - 1] == u);
            }
        }
        assert forall|u2: usize| stack0.contains(u2) && u2 != u implies stack@.contains(u2) by {
            let j = choose|j: int| 0 <= j < stack0.len() && stack0[j] == u2;
            assert(j < l0 - 1);
            assert(stack@[j] == u2);
        }
        let row_len = g[u].len();
        let mut k2: usize = 0;
        while k2 < row_len
            invariant
                gs == adj_view(*g),
                wf_adj(gs),
                s < n,
                n == g@.len(),
                visited@.len() == n,
                u < n,
                visited@[u as int],
                row_len == g@[u as int]@.len(),
                k2 <= row_len,
                stack@.no_duplicates(),
                !stack@.contains(u),
                forall|j: int| 0 <= j < stack@.len() ==> (#[trigger] stack@[j]) < n
                    && visited@[stack@[j] as int],
                forall|v: usize| v < n && visited@[v as int] ==> reaches(gs, s, v),
                forall|w: usize| #[trigger] edge_in(gs, s, w) ==> visited@[w as int],
                forall|k3: int| 0 <= k3 < k2 ==> visited@[g@[u as int]@[k3] as int],
                forall|u2: usize, w: usize|
                    u2 < n && visited@[u2 as int] && u2 != u && !stack@.contains(u2)
                        && #[trigger] edge_in(gs, u2, w) ==> visited@[w as int],
                marked(visited@).len() <= n,
                marked(visited@).len() - m0 == stack@.len() - (l0 - 1),
                stack@.len() >= l0 - 1,
            decreases row_len - k2,
        {
            let w = g[u][k2];
            assert(gs.len() == n);
            assert(gs[u as int] == g@[u as int]@);
            assert(gs[u as int][k2 as int] == w);
            assert(w < n);
            assert(edge_in(gs, u, w)) by {
                assert(gs[u as int].contains(w));
            }
            if !visited[w] {
                let ghost st_before = stack@;
                let ghost vis_before = visited@;
                proof {
                    lemma_marked_update(visited@, w as int);
                    lemma_reaches_step(gs, s, u, w);
                    assert(!st_before.contains(w)) by {
                        if st_before.contains(w) {
                            let j = choose|j: int| 0 <= j < st_before.len() && st_before[j] == w;
                            assert(vis_before[st_before[j] as int]);
                        }
                    }
                }
                visited[w] = true;
                stack.push(w);
                proof {
                    lemma_marked_le(visited@);
                    assert(stack@[stack@.len() - 1] == w);
                    assert(stack@.contains(w));
                    assert forall|x: usize| st_before.contains(x) implies stack@.contains(x) by {
                        let j = choose|j: int| 0 <= j < st_before.len() && st_before[j] == x;
                        assert(stack@[j] == x);
                    }
                    assert(stack@.no_duplicates()) by {
                        assert forall|i: int, j: int|
                            0 <= i < stack@.len() && 0 <= j < stack@.len() && i != j
                            implies stack@[i] != stack@[j] by {
                            if i < stack@.len() - 1 && j < stack@.len() - 1 {
                                assert(stack@[i] == st_before[i]);
                                assert(stack@[j] == st_before[j]);
                            } else if i == stack@.len() - 1 {
                                assert(stack@[j] == st_before[j]);
                                assert(st_before.contains(st_before[j]));
                            } else {
                                assert(stack@[i] == st_before[i]);
                                assert(st_before.contains(st_before[i]));
                            }
                        }
                    }
                }
            }
            k2 += 1;
        }
        assert forall|w: usize| #[trigger] edge_in(gs, u, w) implies visited@[w as int] by {
            let k3 = choose|k3: int| 0 <= k3 < gs[u as int].len() && gs[u as int][k3] == w;
            assert(g@[u as int]@[k3] == w);
        }
    }

    assert forall|v: usize| v < n && reaches(gs, s, v) implies visited@[v as int] by {
        lemma_closed_complete(gs, s, visited@);
    }
    visited
}

} // verus!
