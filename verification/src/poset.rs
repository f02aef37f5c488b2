//! The poset itself: key registry in first-appearance order, draft edge
//! accumulation, and normalization to a Hasse diagram with incomparability
//! rows.

use vstd::prelude::*;
use crate::graph::adj_view;
use crate::graph::wf_adj;
use crate::graph::edge_in;
use crate::graph::reaches;
use crate::graph::reaches_avoiding;
use crate::graph::row_contains;
use crate::graph::reach_from;
use crate::graph::lemma_minus_edge_bridge;

verus! {

/// Strictly ascending (hence duplicate-free) row of indices.
pub open spec fn strictly_sorted(s: Seq<usize>) -> bool {
    forall|i: int, j: int| 0 <= i < j < s.len() ==> s[i] < s[j]
}

/// `ns` and `na` are the Hasse reduction and the incomparability table of the
/// draft relation `d` on `n` indices: a draft edge survives exactly when no
/// alternate path joins its endpoints without it, and `na[i]` lists every
/// `j > i` unreachable from `i` and not reaching `i`, both in ascending order.
pub open spec fn normalized_from(
    ns: Seq<Seq<usize>>,
    na: Seq<Seq<usize>>,
    d: Seq<Seq<usize>>,
    n: nat,
) -> bool {
    &&& ns.len() == n
    &&& na.len() == n
    &&& d.len() == n
    &&& wf_adj(ns)
    &&& wf_adj(na)
    &&& forall|u: usize, v: usize|
        #[trigger] edge_in(ns, u, v) <==> (edge_in(d, u, v) && !reaches_avoiding(d, u, v, u, v))
    &&& forall|i: int| 0 <= i < n ==> strictly_sorted(#[trigger] ns[i])
    &&& forall|i: usize, j: usize|
        #[trigger] edge_in(na, i, j) <==> (i < j < n && !reaches(d, i, j) && !reaches(d, j, i))
    &&& forall|i: int| 0 <= i < n ==> strictly_sorted(#[trigger] na[i])
}

/// Appending a fresh element keeps a sequence duplicate-free.
pub proof fn lemma_push_no_dup(s: Seq<usize>, x: usize)
    requires
        s.no_duplicates(),
        !s.contains(x),
    ensures
        s.push(x).no_duplicates(),
{
    let t = s.push(x);
    assert forall|i: int, j: int| 0 <= i < t.len() && 0 <= j < t.len() && i != j
        implies t[i] != t[j] by {
        if i < s.len() && j < s.len() {
            assert(t[i] == s[i]);
            assert(t[j] == s[j]);
        } else if i == s.len() {
            assert(t[j] == s[j]);
            assert(s.contains(s[j]));
        } else {
            assert(t[i] == s[i]);
            assert(s.contains(s[i]));
        }
    }
}

/// The poset under construction.  `keys` holds each distinct key once, in
/// order of first appearance; `succ[u]` lists the direct successors of the
/// key with index `u`; after normalization `amb[i]` lists every `j > i`
/// incomparable with `i`.
pub struct Poset {
    pub keys: Vec<String>,
    pub succ: Vec<Vec<usize>>,
    pub amb: Vec<Vec<usize>>,
}

impl Poset {
    /// Number of registered keys.
    pub open spec fn n(self) -> nat {
        self.keys@.len()
    }

    /// The keys as character sequences, by index.
    pub open spec fn keys_view(self) -> Seq<Seq<char>> {
        Seq::new(self.keys@.len(), |i: int| self.keys@[i]@)
    }

    pub open spec fn succ_view(self) -> Seq<Seq<usize>> {
        adj_view(self.succ)
    }

    pub open spec fn amb_view(self) -> Seq<Seq<usize>> {
        adj_view(self.amb)
    }

    /// Structural soundness: tables aligned with the key count, successor
    /// indices in range, no self-loop, no repeated edge, distinct keys.
    pub open spec fn wf(self) -> bool {
        &&& self.succ@.len() == self.n()
        &&& self.amb@.len() == self.n()
        &&& wf_adj(self.succ_view())
        &&& wf_adj(self.amb_view())
        &&& forall|u: int|
            0 <= u < self.n() ==> !(#[trigger] self.succ_view()[u]).contains(u as usize)
        &&& forall|u: int| 0 <= u < self.n() ==> (#[trigger] self.succ_view()[u]).no_duplicates()
        &&& forall|i: int, j: int|
            0 <= i < j < self.n() ==> self.keys_view()[i] != self.keys_view()[j]
    }

    /// An empty poset.
    pub fn new() -> (p: Poset)
        ensures
            p.wf(),
            p.n() == 0,
            p.succ@.len() == 0,
            p.amb@.len() == 0,
    {
        Poset { keys: Vec::new(), succ: Vec::new(), amb: Vec::new() }
    }

    /// The index of a registered key, or `None` for an unknown one.
    pub fn index_of(&self, k: &String) -> (r: Option<usize>)
        requires
            self.wf(),
        ensures
            match r {
                Some(i) => i < self.n() && self.keys_view()[i as int] == k@,
                None => forall|j: int| 0 <= j < self.n() ==> self.keys_view()[j] != k@,
            },
    {
        let mut j: usize = 0;
        while j < self.keys.len()
            invariant
                j <= self.keys@.len(),
                forall|j2: int| 0 <= j2 < j ==> self.keys_view()[j2] != k@,
            decreases self.keys@.len() - j,
        {
            if self.keys[j].eq(k) {
                assert(self.keys_view()[j as int] == k@);
                return Some(j);
            }
            assert(self.keys_view()[j as int] != k@);
            j += 1;
        }
        None
    }

    /// Registers `k`, returning its stable index; repeated sight returns the
    /// existing index and changes nothing.
    pub fn add_key(&mut self, k: String) -> (i: usize)
        requires
            old(self).wf(),
        ensures
            final(self).wf(),
            i < final(self).n(),
            final(self).keys_view()[i as int] == k@,
            final(self).succ@.len() == final(self).n(),
            final(self).amb@.len() == final(self).n(),
            old(self).keys_view().contains(k@) ==> final(self).keys@ == old(self).keys@
                && final(self).succ@ == old(self).succ@ && final(self).amb@ == old(self).amb@,
            !old(self).keys_view().contains(k@) ==> i == old(self).n()
                && final(self).keys_view() == old(self).keys_view().push(k@)
                && final(self).succ_view() == old(self).succ_view().push(Seq::<usize>::empty())
                && final(self).amb_view() == old(self).amb_view().push(Seq::<usize>::empty()),
    {
        match self.index_of(&k) {
            Some(i) => {
                assert(old(self).keys_view().contains(k@)) by {
                    assert(old(self).keys_view()[i as int] == k@);
                }
                i
            },
            None => {
                assert(!old(self).keys_view().contains(k@)) by {
                    if old(self).keys_view().contains(k@) {
                        let j = choose|j: int|
                            0 <= j < old(self).keys_view().len() && old(self).keys_view()[j] == k@;
                        assert(old(self).keys_view()[j] != k@);
                    }
                }
                let i = self.keys.len();
                self.keys.push(k);
                self.succ.push(Vec::new());
                self.amb.push(Vec::new());
                proof {
                    assert(self.keys_view() =~= old(self).keys_view().push(k@));
                    assert(self.succ_view() =~= old(self).succ_view().push(Seq::<usize>::empty()));
                    assert(self.amb_view() =~= old(self).amb_view().push(Seq::<usize>::empty()));
                    assert(self.wf()) by {
                        assert forall|u: int, kk: int|
                            0 <= u < self.succ_view().len() && 0 <= kk < self.succ_view()[u].len()
                            implies (self.succ_view()[u][kk]) < self.succ_view().len() by {
                            assert(u < old(self).n());
                            assert(self.succ_view()[u] == old(self).succ_view()[u]);
                        }
                        assert forall|u: int, kk: int|
                            0 <= u < self.amb_view().len() && 0 <= kk < self.amb_view()[u].len()
                            implies (self.amb_view()[u][kk]) < self.amb_view().len() by {
                            assert(u < old(self).n());
                            assert(self.amb_view()[u] == old(self).amb_view()[u]);
                        }
                        assert forall|u: int| 0 <= u < self.n()
                            implies !(self.succ_view()[u]).contains(u as usize)
                                && (self.succ_view()[u]).no_duplicates() by {
                            if u < old(self).n() {
                                assert(self.succ_view()[u] == old(self).succ_view()[u]);
                            } else {
                                assert(self.succ_view()[u] == Seq::<usize>::empty());
                            }
                        }
                        assert forall|a: int, b: int| 0 <= a < b < self.n()
                            implies self.keys_view()[a] != self.keys_view()[b] by {
                            if b < old(self).n() {
                                assert(old(self).keys_view()[a] != old(self).keys_view()[b]);
                            } else {
                                assert(old(self).keys_view().contains(old(self).keys_view()[a]));
                            }
                        }
                    }
                }
                i
            },
        }
    }

    /// Records the draft edge `i -> j`; self-edges are never added and a
    /// repeated edge is not stored twice.
    pub fn add_edge(&mut self, i: usize, j: usize)
        requires
            old(self).wf(),
            i < old(self).n(),
            j < old(self).n(),
        ensures
            final(self).wf(),
            final(self).keys@ == old(self).keys@,
            final(self).amb@ == old(self).amb@,
            final(self).n() == old(self).n(),
            final(self).succ@.len() == old(self).succ@.len(),
            forall|a: usize, b: usize|
                #[trigger] edge_in(final(self).succ_view(), a, b) <==> (edge_in(
                    old(self).succ_view(),
                    a,
                    b,
                ) || (a == i && b == j && i != j)),
    {
        if i == j {
            assert(forall|a: usize, b: usize|
                #[trigger] edge_in(self.succ_view(), a, b) <==> (edge_in(
                    old(self).succ_view(),
                    a,
                    b,
                ) || (a == i && b == j && i != j)));
            return ;
        }
        if row_contains(&self.succ[i], j) {
            assert(edge_in(old(self).succ_view(), i, j)) by {
                assert(old(self).succ_view()[i as int] == old(self).succ@[i as int]@);
            }
            return ;
        }
        let ghost old_row = self.succ@[i as int]@;
        self.succ[i].push(j);
        proof {
            assert(self.succ@ == old(self).succ@.update(i as int, self.succ@[i as int]));
            assert(self.succ@[i as int]@ == old_row.push(j));
            assert forall|a: usize, b: usize|
                #[trigger] edge_in(self.succ_view(), a, b) <==> (edge_in(
                    old(self).succ_view(),
                    a,
                    b,
                ) || (a == i && b == j)) by {
                if a < self.n() {
                    if a == i {
                        assert(self.succ_view()[a as int] == old_row.push(j));
                        assert(old(self).succ_view()[a as int] == old_row);
                        if edge_in(self.succ_view(), a, b) {
                            let kk = choose|kk: int|
                                0 <= kk < old_row.push(j).len() && old_row.push(j)[kk] == b;
                            if kk < old_row.len() {
                                assert(old_row[kk] == b);
                                assert(old_row.contains(b));
                            }
                        }
                        if edge_in(old(self).succ_view(), a, b) {
                            let kk = choose|kk: int| 0 <= kk < old_row.len() && old_row[kk] == b;
                            assert(old_row.push(j)[kk] == b);
                        }
                        if b == j {
                            assert(old_row.push(j)[old_row.len() as int] == j);
                        }
                    } else {
                        assert(self.succ_view()[a as int] == old(self).succ_view()[a as int]);
                    }
                }
            }
            assert(self.keys_view() =~= old(self).keys_view());
            assert(self.amb_view() =~= old(self).amb_view());
            assert(self.wf()) by {
                assert(!old_row.contains(j));
                assert(old(self).succ_view()[i as int] == old_row);
                assert(old_row.no_duplicates());
                lemma_push_no_dup(old_row, j);
                assert forall|u: int| 0 <= u < self.n()
                    implies !(self.succ_view()[u]).contains(u as usize)
                        && (self.succ_view()[u]).no_duplicates() by {
                    if u == i {
                        assert(self.succ_view()[u] == old_row.push(j));
                        assert(!old(self).succ_view()[u].contains(u as usize));
                        if old_row.push(j).contains(u as usize) {
                            let kk = choose|kk: int|
                                0 <= kk < old_row.push(j).len() && old_row.push(j)[kk] == u;
                            if kk < old_row.len() {
                                assert(old_row[kk] == u);
                                assert(old_row.contains(u as usize));
                            }
                        }
                    } else {
                        assert(self.succ_view()[u] == old(self).succ_view()[u]);
                    }
                }
                assert forall|u: int, kk: int|
                    0 <= u < self.succ_view().len() && 0 <= kk < self.succ_view()[u].len()
                    implies (self.succ_view()[u][kk]) < self.succ_view().len() by {
                    if u == i {
                        assert(self.succ_view()[u] == old_row.push(j));
                        if kk < old_row.len() {
                            assert(old(self).succ_view()[u][kk] == old_row[kk]);
                        }
                    } else {
                        assert(self.succ_view()[u] == old(self).succ_view()[u]);
                    }
                }
            }
        }
    }
    /// Builds a poset in one shot from a batch of rows: registers every key
    /// in first-appearance order, records a draft edge for every ordered pair
    /// of positions within each row, and normalizes the result.
    #[verifier::loop_isolation(false)]
    #[verifier::rlimit(100)]
    #[verifier::spinoff_prover]
    pub fn from_rows(rows: &Vec<Vec<String>>) -> (p: Poset)
        ensures
            p.wf(),
            built_from(p, rows_view(*rows)),
    {
        let ghost rv = rows_view(*rows);
        let mut p = Poset::new();
        proof {
            assert(p.keys_view() =~= Seq::<Seq<char>>::empty());
            assert(rv.skip(0) =~= rv);
        }

        // first pass: register every key in order of first appearance
        let mut r: usize = 0;
        while r < rows.len()
            invariant
                r <= rows@.len(),
                p.wf(),
                p.succ@.len() == p.n(),
                p.amb@.len() == p.n(),
                forall|u: int| 0 <= u < p.n() ==> (#[trigger] p.succ_view()[u]) =~= Seq::<
                    usize,
                >::empty(),
                ooa_rows(p.keys_view(), rv.skip(r as int)) == ooa(rv),
            decreases rows@.len() - r,
        {
            let ghost rvr = rv[r as int];
            proof {
                assert(rv.skip(r as int).first() == rvr);
                assert(rv.skip(r as int).drop_first() =~= rv.skip(r as int + 1));
                assert(ooa_rows(p.keys_view(), rv.skip(r as int)) == ooa_rows(
                    ooa_row(p.keys_view(), rvr),
                    rv.skip(r as int + 1),
                ));
            }
            let row_len = rows[r].len();
            assert(row_len == rvr.len());
            proof {
                assert(rvr.skip(0) =~= rvr);
            }
            let mut a: usize = 0;
            while a < row_len
                invariant
                    a <= row_len,
                    r < rows@.len(),
                    p.wf(),
                    p.succ@.len() == p.n(),
                    p.amb@.len() == p.n(),
                    forall|u: int| 0 <= u < p.n() ==> (#[trigger] p.succ_view()[u]) =~= Seq::<
                        usize,
                    >::empty(),
                    ooa_rows(ooa_row(p.keys_view(), rvr.skip(a as int)), rv.skip(r as int + 1))
                        == ooa(rv),
                decreases row_len - a,
            {
                let k = rows[r][a].clone();
                assert(k@ == rvr[a as int]) by {
                    assert(rvr == row_view(rows@[r as int]));
                }
                let ghost kv0 = p.keys_view();
                let ghost sv0 = p.succ_view();
                let _ = p.add_key(k);
                proof {
                    assert(p.keys_view() == ooa_insert(kv0, rvr[a as int])) by {
                        if kv0.contains(rvr[a as int]) {
                            assert(p.keys_view() =~= kv0);
                        }
                    }
                    assert(rvr.skip(a as int).first() == rvr[a as int]);
                    assert(rvr.skip(a as int).drop_first() =~= rvr.skip(a as int + 1));
                    assert(ooa_row(kv0, rvr.skip(a as int)) == ooa_row(
                        p.keys_view(),
                        rvr.skip(a as int + 1),
                    ));
                    assert forall|u: int| 0 <= u < p.n()
                        implies (#[trigger] p.succ_view()[u]) =~= Seq::<usize>::empty() by {
                        if kv0.contains(rvr[a as int]) {
                            assert(p.succ_view() =~= sv0);
                            assert(sv0[u] =~= Seq::<usize>::empty());
                        } else {
                            assert(p.succ_view() == sv0.push(Seq::<usize>::empty()));
                            assert(p.succ_view().len() == sv0.len() + 1);
                            if u < sv0.len() {
                                assert(sv0.push(Seq::<usize>::empty())[u] == sv0[u]);
                                assert(p.succ_view()[u] == sv0[u]);
                                assert(sv0[u] =~= Seq::<usize>::empty());
                            } else {
                                assert(u == sv0.len());
                                assert(sv0.push(Seq::<usize>::empty())[sv0.len() as int]
                                    == Seq::<usize>::empty());
                                assert(p.succ_view()[u] == Seq::<usize>::empty());
                            }
                        }
                    }
                }
                a += 1;
            }
            proof {
                assert(rvr.skip(row_len as int) =~= Seq::<Seq<char>>::empty());
                assert(ooa_row(p.keys_view(), rvr.skip(row_len as int)) == p.keys_view());
            }
            r += 1;
        }
        proof {
            assert(rv.skip(rows@.len() as int) =~= Seq::<Seq<Seq<char>>>::empty());
            assert(p.keys_view() == ooa(rv));
            lemma_ooa_rows_super(Seq::empty(), rv);
        }
        let ghost kv = p.keys_view();

        // second pass: a draft edge for every ordered pair within a row
        let mut r: usize = 0;
        while r < rows.len()
            invariant
                r <= rows@.len(),
                p.wf(),
                p.keys_view() == kv,
                p.n() == kv.len(),
                p.succ@.len() == p.n(),
                p.amb@.len() == p.n(),
                forall|x: usize, y: usize|
                    #[trigger] edge_in(p.succ_view(), x, y) <==> pair_edge_upto(
                        rv,
                        kv,
                        x,
                        y,
                        r as int,
                        0,
                        1,
                    ),
            decreases rows@.len() - r,
        {
            let ghost rvr = rv[r as int];
            let row_len = rows[r].len();
            assert(row_len == rvr.len());
            let mut a: usize = 0;
            while a < row_len
                invariant
                    a <= row_len,
                    r < rows@.len(),
                    p.wf(),
                    p.keys_view() == kv,
                    p.n() == kv.len(),
                    forall|x: usize, y: usize|
                        #[trigger] edge_in(p.succ_view(), x, y) <==> pair_edge_upto(
                            rv,
                            kv,
                            x,
                            y,
                            r as int,
                            a as int,
                            a as int + 1,
                        ),
                decreases row_len - a,
            {
                assert(kv.contains(rvr[a as int])) by {
                    assert(rv[r as int][a as int] == rvr[a as int]);
                }
                let u = match p.index_of(&rows[r][a]) {
                    Some(x) => x,
                    None => {
                        proof {
                            assert(rows@[r as int]@[a as int]@ == rvr[a as int]);
                            let jj = choose|jj: int| 0 <= jj < kv.len() && kv[jj] == rvr[a as int];
                            assert(false);
                        }
                        0
                    },
                };
                assert(kv[u as int] == rvr[a as int]) by {
                    assert(rows@[r as int]@[a as int]@ == rvr[a as int]);
                }
                let mut b: usize = a + 1;
                while b < row_len
                    invariant
                        a < b <= row_len,
                        r < rows@.len(),
                        u < kv.len(),
                        kv[u as int] == rvr[a as int],
                        p.wf(),
                        p.keys_view() == kv,
                        p.n() == kv.len(),
                        forall|x: usize, y: usize|
                            #[trigger] edge_in(p.succ_view(), x, y) <==> pair_edge_upto(
                                rv,
                                kv,
                                x,
                                y,
                                r as int,
                                a as int,
                                b as int,
                            ),
                    decreases row_len - b,
                {
                    assert(kv.contains(rvr[b as int])) by {
                        assert(rv[r as int][b as int] == rvr[b as int]);
                    }
                    let v = match p.index_of(&rows[r][b]) {
                        Some(x) => x,
                        None => {
                            proof {
                                assert(rows@[r as int]@[b as int]@ == rvr[b as int]);
                                let jj = choose|jj: int|
                                    0 <= jj < kv.len() && kv[jj] == rvr[b as int];
                                assert(false);
                            }
                            0
                        },
                    };
                    assert(kv[v as int] == rvr[b as int]) by {
                        assert(rows@[r as int]@[b as int]@ == rvr[b as int]);
                    }
                    let ghost sv0 = p.succ_view();
                    p.add_edge(u, v);
                    proof {
                        assert forall|x: usize, y: usize|
                            #[trigger] edge_in(p.succ_view(), x, y) <==> pair_edge_upto(
                                rv,
                                kv,
                                x,
                                y,
                                r as int,
                                a as int,
                                b as int + 1,
                            ) by {
                            if edge_in(p.succ_view(), x, y) {
                                if edge_in(sv0, x, y) {
                                    assert(pair_edge_upto(rv, kv, x, y, r as int, a as int, b as int));
                                    let (rr, aa, bb) = choose|rr: int, aa: int, bb: int|
                                        0 <= rr < rv.len() && 0 <= aa < bb < rv[rr].len()
                                            && rv[rr][aa] == kv[x as int] && rv[rr][bb] == kv[y as int]
                                            && (rr < r || (rr == r && (aa < a || (aa == a && bb
                                            < b))));
                                    assert(rv[rr][aa] == kv[x as int] && rv[rr][bb] == kv[y as int]);
                                } else {
                                    assert(x == u && y == v && u != v);
                                    assert(rv[r as int][a as int] == kv[x as int]);
                                    assert(rv[r as int][b as int] == kv[y as int]);
                                }
                            }
                            if pair_edge_upto(rv, kv, x, y, r as int, a as int, b as int + 1) {
                                let (rr, aa, bb) = choose|rr: int, aa: int, bb: int|
                                    0 <= rr < rv.len() && 0 <= aa < bb < rv[rr].len()
                                        && rv[rr][aa] == kv[x as int] && rv[rr][bb] == kv[y as int]
                                        && (rr < r || (rr == r && (aa < a || (aa == a && bb < b
                                        + 1))));
                                if rr < r || (rr == r && (aa < a || (aa == a && bb < b))) {
                                    assert(pair_edge_upto(rv, kv, x, y, r as int, a as int, b as int));
                                } else {
                                    assert(rr == r && aa == a && bb == b);
                                    assert(kv[x as int] == rvr[a as int]);
                                    assert(kv[y as int] == rvr[b as int]);
                                    assert(x == u) by {
                                        if x != u {
                                            assert(kv[x as int] != kv[u as int]);
                                        }
                                    }
                                    assert(y == v) by {
                                        if y != v {
                                            assert(kv[y as int] != kv[v as int]);
                                        }
                                    }
                                    assert(edge_in(p.succ_view(), u, v));
                                }
                            }
                        }
                    }
                    b += 1;
                }
                proof {
                    assert forall|x: usize, y: usize|
                        pair_edge_upto(rv, kv, x, y, r as int, a as int + 1, a as int + 2)
                        implies #[trigger] pair_edge_upto(
                            rv,
                            kv,
                            x,
                            y,
                            r as int,
                            a as int,
                            row_len as int,
                        ) by {
                        let (rr, aa, bb) = choose|rr: int, aa: int, bb: int|
                            0 <= rr < rv.len() && 0 <= aa < bb < rv[rr].len() && rv[rr][aa]
                                == kv[x as int] && rv[rr][bb] == kv[y as int] && (rr < r || (rr
                                == r && (aa < a + 1 || (aa == a + 1 && bb < a + 2))));
                        assert(rv[rr][aa] == kv[x as int] && rv[rr][bb] == kv[y as int]);
                    }
                    assert forall|x: usize, y: usize|
                        pair_edge_upto(rv, kv, x, y, r as int, a as int, row_len as int)
                        implies #[trigger] pair_edge_upto(
                            rv,
                            kv,
                            x,
                            y,
                            r as int,
                            a as int + 1,
                            a as int + 2,
                        ) by {
                        let (rr, aa, bb) = choose|rr: int, aa: int, bb: int|
                            0 <= rr < rv.len() && 0 <= aa < bb < rv[rr].len() && rv[rr][aa]
                                == kv[x as int] && rv[rr][bb] == kv[y as int] && (rr < r || (rr
                                == r && (aa < a || (aa == a && bb < row_len))));
                        assert(rv[rr][aa] == kv[x as int] && rv[rr][bb] == kv[y as int]);
                    }
                }
                a += 1;
            }
            proof {
                assert forall|x: usize, y: usize|
                    pair_edge_upto(rv, kv, x, y, r as int + 1, 0, 1) implies #[trigger] pair_edge_upto(
                        rv,
                        kv,
                        x,
                        y,
                        r as int,
                        row_len as int,
                        row_len as int + 1,
                    ) by {
                    let (rr, aa, bb) = choose|rr: int, aa: int, bb: int|
                        0 <= rr < rv.len() && 0 <= aa < bb < rv[rr].len() && rv[rr][aa]
                            == kv[x as int] && rv[rr][bb] == kv[y as int] && (rr < r + 1 || (rr
                            == r + 1 && (aa < 0 || (aa == 0 && bb < 1))));
                    assert(rv[rr][aa] == kv[x as int] && rv[rr][bb] == kv[y as int]);
                    assert(rr < r + 1);
                    if rr == r {
                        assert(aa < bb < rv[r as int].len());
                        assert(aa < row_len);
                    }
                }
                assert forall|x: usize, y: usize|
                    pair_edge_upto(rv, kv, x, y, r as int, row_len as int, row_len as int + 1)
                    implies #[trigger] pair_edge_upto(rv, kv, x, y, r as int + 1, 0, 1) by {
                    let (rr, aa, bb) = choose|rr: int, aa: int, bb: int|
                        0 <= rr < rv.len() && 0 <= aa < bb < rv[rr].len() && rv[rr][aa]
                            == kv[x as int] && rv[rr][bb] == kv[y as int] && (rr < r || (rr == r
                            && (aa < row_len || (aa == row_len && bb < row_len + 1))));
                    assert(rv[rr][aa] == kv[x as int] && rv[rr][bb] == kv[y as int]);
                }
            }
            r += 1;
        }

        // the accumulated relation is exactly the batch's draft relation
        let ghost d = p.succ_view();
        proof {
            assert(draft_of(d, rv, kv)) by {
                assert forall|x: usize, y: usize|
                    #[trigger] edge_in(d, x, y) <==> pair_edge(rv, kv, x, y) by {
                    if edge_in(d, x, y) {
                        assert(pair_edge_upto(rv, kv, x, y, rows@.len() as int, 0, 1));
                        let (rr, aa, bb) = choose|rr: int, aa: int, bb: int|
                            0 <= rr < rv.len() && 0 <= aa < bb < rv[rr].len() && rv[rr][aa]
                                == kv[x as int] && rv[rr][bb] == kv[y as int] && (rr < rows@.len()
                                || (rr == rows@.len() && (aa < 0 || (aa == 0 && bb < 1))));
                        assert(rv[rr][aa] == kv[x as int] && rv[rr][bb] == kv[y as int]);
                    }
                    if pair_edge(rv, kv, x, y) {
                        let (rr, aa, bb) = choose|rr: int, aa: int, bb: int|
                            0 <= rr < rv.len() && 0 <= aa < bb < rv[rr].len() && rv[rr][aa]
                                == kv[x as int] && rv[rr][bb] == kv[y as int];
                        assert(rv[rr][aa] == kv[x as int] && rv[rr][bb] == kv[y as int]);
                        assert(rr < rows@.len());
                        assert(pair_edge_upto(rv, kv, x, y, rows@.len() as int, 0, 1));
                    }
                }
            }
        }
        p.normalize();
        proof {
            assert(p.keys_view() =~= kv);
            assert(built_from(p, rv)) by {
                assert(draft_of(d, rv, p.keys_view()));
                assert(normalized_from(p.succ_view(), p.amb_view(), d, p.n()));
            }
        }
        p
    }

    /// Recomputes `succ` as the transitive reduction (Hasse diagram) of the
    /// current draft relation, and `amb` as its incomparability table, both
    /// rows sorted ascending.  Pure recomputation: repeating it without new
    /// data keeps the tables fixed.
    #[verifier::loop_isolation(false)]
    #[verifier::rlimit(100)]
    #[verifier::spinoff_prover]
    pub fn normalize(&mut self)
        requires
            old(self).wf(),
        ensures
            final(self).wf(),
            final(self).keys@ == old(self).keys@,
            final(self).n() == old(self).n(),
            normalized_from(
                final(self).succ_view(),
                final(self).amb_view(),
                old(self).succ_view(),
                old(self).n(),
            ),
    {
        let n = self.keys.len();
        let ghost d = self.succ_view();

        // reachability of the draft relation from every source
        let mut rmat: Vec<Vec<bool>> = Vec::new();
        let mut s: usize = 0;
        while s < n
            invariant
                rmat@.len() == s,
                s <= n,
                forall|ss: int| 0 <= ss < s ==> (#[trigger] rmat@[ss])@.len() == n,
                forall|ss: int, t: usize|
                    0 <= ss < s && t < n ==> ((#[trigger] rmat@[ss]@[t as int]) <==> reaches(
                        d,
                        ss as usize,
                        t,
                    )),
            decreases n - s,
        {
            let row = reach_from(&self.succ, s);
            rmat.push(row);
            s += 1;
        }

        // transitive reduction: keep a draft edge u -> v only when no
        // alternate path joins u to v without it
        let mut new_succ: Vec<Vec<usize>> = Vec::new();
        let mut u: usize = 0;
        while u < n
            invariant
                new_succ@.len() == u,
                u <= n,
                forall|uu: usize, v: usize|
                    uu < u ==> ((#[trigger] new_succ@[uu as int]@.contains(v)) <==> (edge_in(
                        d,
                        uu,
                        v,
                    ) && !reaches_avoiding(d, uu, v, uu, v))),
                forall|uu: int| 0 <= uu < u ==> strictly_sorted((#[trigger] new_succ@[uu])@),
            decreases n - u,
        {
            let mut row: Vec<usize> = Vec::new();
            let mut v: usize = 0;
            while v < n
                invariant
                    v <= n,
                    forall|vv: usize|
                        (#[trigger] row@.contains(vv)) <==> (vv < v && edge_in(d, u, vv)
                            && !reaches_avoiding(d, u, vv, u, vv)),
                    forall|kk: int| 0 <= kk < row@.len() ==> (#[trigger] row@[kk]) < v,
                    strictly_sorted(row@),
                decreases n - v,
            {
                if row_contains(&self.succ[u], v) {
                    assert(edge_in(d, u, v)) by {
                        assert(d[u as int] == self.succ@[u as int]@);
                    }
                    let g2 = copy_minus(&self.succ, u, v);
                    proof {
                        assert forall|uu: int, kk: int|
                            0 <= uu < adj_view(g2).len() && 0 <= kk < adj_view(g2)[uu].len()
                            implies (adj_view(g2)[uu][kk]) < adj_view(g2).len() by {
                            let y = adj_view(g2)[uu][kk];
                            assert(adj_view(g2)[uu] == g2@[uu]@);
                            assert(g2@[uu]@.contains(y));
                            assert(self.succ@[uu]@.contains(y));
                            let jj = choose|jj: int|
                                0 <= jj < self.succ@[uu]@.len() && self.succ@[uu]@[jj] == y;
                            assert(d[uu][jj] == y);
                        }
                        lemma_minus_edge_bridge(adj_view(g2), d, u, v);
                    }
                    let r2 = reach_from(&g2, u);
                    let ghost row0 = row@;
                    if !r2[v] {
                        assert(!reaches_avoiding(d, u, v, u, v)) by {
                            assert(!reaches(adj_view(g2), u, v));
                        }
                        row.push(v);
                        proof {
                            assert forall|vv: usize| #[trigger]
                                row@.contains(vv) implies (vv < v + 1 && edge_in(d, u, vv)
                                    && !reaches_avoiding(d, u, vv, u, vv)) by {
                                let kk = choose|kk: int| 0 <= kk < row@.len() && row@[kk] == vv;
                                if kk < row0.len() {
                                    assert(row0[kk] == vv);
                                    assert(row0.contains(vv));
                                } else {
                                    assert(vv == v);
                                }
                            }
                            assert forall|vv: usize|
                                (vv < v + 1 && edge_in(d, u, vv) && !reaches_avoiding(
                                    d,
                                    u,
                                    vv,
                                    u,
                                    vv,
                                )) implies #[trigger] row@.contains(vv) by {
                                if vv < v {
                                    assert(row0.contains(vv));
                                    let kk = choose|kk: int|
                                        0 <= kk < row0.len() && row0[kk] == vv;
                                    assert(row@[kk] == vv);
                                } else {
                                    assert(row@[row@.len() - 1] == v);
                                }
                            }
                        }
                    } else {
                        assert(reaches_avoiding(d, u, v, u, v)) by {
                            assert(reaches(adj_view(g2), u, v));
                        }
                    }
                }
                v += 1;
            }
            new_succ.push(row);
            u += 1;
        }

        // incomparability: pairs i < j with no path in either direction
        let mut new_amb: Vec<Vec<usize>> = Vec::new();
        let mut i: usize = 0;
        while i < n
            invariant
                new_amb@.len() == i,
                i <= n,
                forall|ii: usize, j: usize|
                    ii < i ==> ((#[trigger] new_amb@[ii as int]@.contains(j)) <==> (ii < j < n
                        && !reaches(d, ii, j) && !reaches(d, j, ii))),
                forall|ii: int| 0 <= ii < i ==> strictly_sorted((#[trigger] new_amb@[ii])@),
            decreases n - i,
        {
            let mut row: Vec<usize> = Vec::new();
            let mut j: usize = i + 1;
            while j < n
                invariant
                    i < n,
                    i + 1 <= j <= n,
                    forall|jj: usize|
                        (#[trigger] row@.contains(jj)) <==> (i < jj < j && !reaches(d, i, jj)
                            && !reaches(d, jj, i)),
                    forall|kk: int| 0 <= kk < row@.len() ==> (#[trigger] row@[kk]) < j,
                    strictly_sorted(row@),
                decreases n - j,
            {
                let ghost row0 = row@;
                if !rmat[i][j] && !rmat[j][i] {
                    row.push(j);
                    proof {
                        assert forall|jj: usize| #[trigger]
                            row@.contains(jj) implies (i < jj < j + 1 && !reaches(d, i, jj)
                                && !reaches(d, jj, i)) by {
                            let kk = choose|kk: int| 0 <= kk < row@.len() && row@[kk] == jj;
                            if kk < row0.len() {
                                assert(row0[kk] == jj);
                                assert(row0.contains(jj));
                            } else {
                                assert(jj == j);
                            }
                        }
                        assert forall|jj: usize|
                            (i < jj < j + 1 && !reaches(d, i, jj) && !reaches(d, jj, i))
                            implies #[trigger] row@.contains(jj) by {
                            if jj < j {
                                assert(row0.contains(jj));
                                let kk = choose|kk: int| 0 <= kk < row0.len() && row0[kk] == jj;
                                assert(row@[kk] == jj);
                            } else {
                                assert(row@[row@.len() - 1] == j);
                            }
                        }
                    }
                }
                j += 1;
            }
            new_amb.push(row);
            i += 1;
        }

        self.succ = new_succ;
        self.amb = new_amb;
        proof {
            assert(self.keys_view() =~= old(self).keys_view());
            assert(normalized_from(self.succ_view(), self.amb_view(), d, n as nat)) by {
                assert forall|uu: usize, v: usize| #[trigger]
                    edge_in(self.succ_view(), uu, v) <==> (edge_in(d, uu, v) && !reaches_avoiding(
                        d,
                        uu,
                        v,
                        uu,
                        v,
                    )) by {
                    if uu < n {
                        assert(self.succ_view()[uu as int] == self.succ@[uu as int]@);
                        assert(self.succ@[uu as int]@.contains(v) <==> (edge_in(d, uu, v)
                            && !reaches_avoiding(d, uu, v, uu, v)));
                    }
                }
                assert forall|ii: usize, jj: usize| #[trigger]
                    edge_in(self.amb_view(), ii, jj) <==> (ii < jj < n && !reaches(d, ii, jj)
                        && !reaches(d, jj, ii)) by {
                    if ii < n {
                        assert(self.amb_view()[ii as int] == self.amb@[ii as int]@);
                    }
                }
                assert forall|uu: int, kk: int|
                    0 <= uu < self.succ_view().len() && 0 <= kk < self.succ_view()[uu].len()
                    implies (self.succ_view()[uu][kk]) < self.succ_view().len() by {
                    let y = self.succ_view()[uu][kk];
                    assert(self.succ_view()[uu].contains(y));
                    assert(edge_in(self.succ_view(), uu as usize, y));
                }
                assert forall|uu: int, kk: int|
                    0 <= uu < self.amb_view().len() && 0 <= kk < self.amb_view()[uu].len()
                    implies (self.amb_view()[uu][kk]) < self.amb_view().len() by {
                    let y = self.amb_view()[uu][kk];
                    assert(self.amb_view()[uu].contains(y));
                    assert(edge_in(self.amb_view(), uu as usize, y));
                }
                assert forall|ii: int| 0 <= ii < n
                    implies strictly_sorted(#[trigger] self.succ_view()[ii])
                        && strictly_sorted(#[trigger] self.amb_view()[ii]) by {
                    assert(self.succ_view()[ii] == self.succ@[ii]@);
                    assert(self.amb_view()[ii] == self.amb@[ii]@);
                }
            }
            assert(self.wf()) by {
                assert forall|uu: int| 0 <= uu < self.n()
                    implies !(#[trigger] self.succ_view()[uu]).contains(uu as usize)
                        && (self.succ_view()[uu]).no_duplicates() by {
                    if self.succ_view()[uu].contains(uu as usize) {
                        assert(edge_in(self.succ_view(), uu as usize, uu as usize));
                        assert(edge_in(d, uu as usize, uu as usize));
                        assert(d[uu].contains(uu as usize));
                        assert(old(self).succ_view()[uu].contains(uu as usize));
                    }
                    assert(strictly_sorted(self.succ_view()[uu]));
                    assert forall|a: int, b: int|
                        0 <= a < self.succ_view()[uu].len() && 0 <= b < self.succ_view()[uu].len()
                            && a != b implies self.succ_view()[uu][a] != self.succ_view()[uu][b] by {
                        if a < b {
                            assert(self.succ_view()[uu][a] < self.succ_view()[uu][b]);
                        } else {
                            assert(self.succ_view()[uu][b] < self.succ_view()[uu][a]);
                        }
                    }
                }
            }
        }
    }
}

/// The view of one row of keys as character sequences.
pub open spec fn row_view(r: Vec<String>) -> Seq<Seq<char>> {
    Seq::new(r@.len(), |j: int| r@[j]@)
}

/// The view of a batch of rows.
pub open spec fn rows_view(rows: Vec<Vec<String>>) -> Seq<Seq<Seq<char>>> {
    Seq::new(rows@.len(), |i: int| row_view(rows@[i]))
}

/// Appends `x` to the registry unless it is already known.
pub open spec fn ooa_insert(acc: Seq<Seq<char>>, x: Seq<char>) -> Seq<Seq<char>> {
    if acc.contains(x) {
        acc
    } else {
        acc.push(x)
    }
}

/// Folds one row into the registry, left to right.
pub open spec fn ooa_row(acc: Seq<Seq<char>>, row: Seq<Seq<char>>) -> Seq<Seq<char>>
    decreases row.len(),
{
    if row.len() == 0 {
        acc
    } else {
        ooa_row(ooa_insert(acc, row.first()), row.drop_first())
    }
}

/// Folds a batch of rows into the registry.
pub open spec fn ooa_rows(acc: Seq<Seq<char>>, rows: Seq<Seq<Seq<char>>>) -> Seq<Seq<char>>
    decreases rows.len(),
{
    if rows.len() == 0 {
        acc
    } else {
        ooa_rows(ooa_row(acc, rows.first()), rows.drop_first())
    }
}

/// The distinct keys of a batch, in order of first appearance.
pub open spec fn ooa(rows: Seq<Seq<Seq<char>>>) -> Seq<Seq<char>> {
    ooa_rows(Seq::empty(), rows)
}

/// The keys with indices `u` and `v` co-occur in some row, `u` strictly
/// before `v`.
pub open spec fn pair_edge(
    rv: Seq<Seq<Seq<char>>>,
    kv: Seq<Seq<char>>,
    u: usize,
    v: usize,
) -> bool {
    u != v && u < kv.len() && v < kv.len() && exists|rr: int, aa: int, bb: int|
        #![trigger rv[rr][aa], rv[rr][bb]]
        0 <= rr < rv.len() && 0 <= aa < bb < rv[rr].len() && rv[rr][aa] == kv[u as int]
            && rv[rr][bb] == kv[v as int]
}

/// The same, restricted to the position pairs strictly before `(r, a, b)` in
/// the scanning order.
pub open spec fn pair_edge_upto(
    rv: Seq<Seq<Seq<char>>>,
    kv: Seq<Seq<char>>,
    u: usize,
    v: usize,
    r: int,
    a: int,
    b: int,
) -> bool {
    u != v && u < kv.len() && v < kv.len() && exists|rr: int, aa: int, bb: int|
        #![trigger rv[rr][aa], rv[rr][bb]]
        0 <= rr < rv.len() && 0 <= aa < bb < rv[rr].len() && rv[rr][aa] == kv[u as int]
            && rv[rr][bb] == kv[v as int] && (rr < r || (rr == r && (aa < a || (aa == a && bb
            < b))))
}

/// `d` is the draft relation of the batch `rv` over the registry `kv`.
pub open spec fn draft_of(d: Seq<Seq<usize>>, rv: Seq<Seq<Seq<char>>>, kv: Seq<Seq<char>>) -> bool {
    &&& d.len() == kv.len()
    &&& wf_adj(d)
    &&& forall|u: usize, v: usize| #[trigger] edge_in(d, u, v) <==> pair_edge(rv, kv, u, v)
}

/// What `from_rows` builds: the registry is the batch's keys in first-appearance
/// order, and `succ`/`amb` are the normalization of the batch's draft relation.
pub open spec fn built_from(p: Poset, rv: Seq<Seq<Seq<char>>>) -> bool {
    &&& p.keys_view() == ooa(rv)
    &&& exists|d: Seq<Seq<usize>>|
        #[trigger] draft_of(d, rv, p.keys_view()) && normalized_from(
            p.succ_view(),
            p.amb_view(),
            d,
            p.n(),
        )
}

/// Registry folding only ever adds entries.
proof fn lemma_ooa_row_super(acc: Seq<Seq<char>>, row: Seq<Seq<char>>)
    ensures
        forall|y: Seq<char>|
            acc.contains(y) || row.contains(y) ==> #[trigger] ooa_row(acc, row).contains(y),
    decreases row.len(),
{
    if row.len() == 0 {
    } else {
        let acc2 = ooa_insert(acc, row.first());
        lemma_ooa_row_super(acc2, row.drop_first());
        assert forall|y: Seq<char>| acc.contains(y) || row.contains(y)
            implies #[trigger] ooa_row(acc, row).contains(y) by {
            if acc.contains(y) || y == row.first() {
                assert(acc2.contains(y)) by {
                    if acc.contains(y) {
                        let kk = choose|kk: int| 0 <= kk < acc.len() && acc[kk] == y;
                        if !acc.contains(row.first()) {
                            assert(acc.push(row.first())[kk] == y);
                        }
                    } else {
                        if acc.contains(row.first()) {
                            assert(acc2 == acc);
                        } else {
                            assert(acc.push(row.first())[acc.len() as int] == row.first());
                        }
                    }
                }
            } else {
                assert(row.contains(y));
                let kk = choose|kk: int| 0 <= kk < row.len() && row[kk] == y;
                assert(kk != 0);
                assert(row.drop_first()[kk - 1] == y);
                assert(row.drop_first().contains(y));
            }
            assert(ooa_row(acc, row) == ooa_row(acc2, row.drop_first()));
        }
    }
}

/// Every key of every row ends up registered.
proof fn lemma_ooa_rows_super(acc: Seq<Seq<char>>, rows: Seq<Seq<Seq<char>>>)
    ensures
        forall|y: Seq<char>| acc.contains(y) ==> #[trigger] ooa_rows(acc, rows).contains(y),
        forall|rr: int, cc: int|
            0 <= rr < rows.len() && 0 <= cc < rows[rr].len() ==> ooa_rows(acc, rows).contains(
                #[trigger] rows[rr][cc],
            ),
    decreases rows.len(),
{
    if rows.len() == 0 {
    } else {
        let acc2 = ooa_row(acc, rows.first());
        lemma_ooa_row_super(acc, rows.first());
        lemma_ooa_rows_super(acc2, rows.drop_first());
        assert(ooa_rows(acc, rows) == ooa_rows(acc2, rows.drop_first()));
        assert forall|rr: int, cc: int|
            0 <= rr < rows.len() && 0 <= cc < rows[rr].len()
            implies ooa_rows(acc, rows).contains(#[trigger] rows[rr][cc]) by {
            if rr == 0 {
                assert(rows.first().contains(rows[0][cc])) by {
                    assert(rows.first()[cc] == rows[0][cc]);
                }
                assert(acc2.contains(rows[0][cc]));
            } else {
                assert(rows.drop_first()[rr - 1] == rows[rr]);
                assert(ooa_rows(acc2, rows.drop_first()).contains(rows.drop_first()[rr - 1][cc]));
            }
        }
    }
}

/// A copy of the adjacency list `g` with the edge `a -> b` left out.
#[verifier::loop_isolation(false)]
#[verifier::rlimit(50)]
fn copy_minus(g: &Vec<Vec<usize>>, a: usize, b: usize) -> (r: Vec<Vec<usize>>)
    ensures
        r@.len() == g@.len(),
        forall|x: usize, y: usize|
            #[trigger] edge_in(adj_view(r), x, y) <==> (edge_in(adj_view(*g), x, y) && !(x == a
                && y == b)),
        forall|uu: int, y: usize|
            0 <= uu < g@.len() && (#[trigger] r@[uu]@.contains(y)) ==> g@[uu]@.contains(y),
{
    let n = g.len();
    let mut r: Vec<Vec<usize>> = Vec::new();
    let mut u: usize = 0;
    while u < n
        invariant
            r@.len() == u,
            u <= n,
            forall|uu: int, y: usize|
                0 <= uu < u ==> ((#[trigger] r@[uu]@.contains(y)) <==> (g@[uu]@.contains(y) && !(
                uu == a && y == b))),
        decreases n - u,
    {
        let row_len = g[u].len();
        let mut row: Vec<usize> = Vec::new();
        let mut k: usize = 0;
        while k < row_len
            invariant
                u < n,
                k <= row_len,
                row_len == g@[u as int]@.len(),
                forall|y: usize|
                    #[trigger] row@.contains(y) ==> (g@[u as int]@.contains(y) && !(u == a && y
                        == b)),
                forall|kk: int|
                    0 <= kk < k && !(u == a && g@[u as int]@[kk] == b) ==> row@.contains(
                        #[trigger] g@[u as int]@[kk],
                    ),
            decreases row_len - k,
        {
            let x = g[u][k];
            assert(g@[u as int]@[k as int] == x);
            let ghost row0 = row@;
            if !(u == a && x == b) {
                row.push(x);
                proof {
                    assert(row@[row@.len() - 1] == x);
                    assert forall|y: usize| #[trigger]
                        row@.contains(y) implies (g@[u as int]@.contains(y) && !(u == a && y == b)) by {
                        let kk = choose|kk: int| 0 <= kk < row@.len() && row@[kk] == y;
                        if kk < row0.len() {
                            assert(row0[kk] == y);
                            assert(row0.contains(y));
                        } else {
                            assert(y == x);
                            assert(g@[u as int]@.contains(x));
                        }
                    }
                    assert forall|kk: int|
                        0 <= kk < k + 1 && !(u == a && g@[u as int]@[kk] == b)
                        implies row@.contains(#[trigger] g@[u as int]@[kk]) by {
                        if kk < k {
                            assert(row0.contains(g@[u as int]@[kk]));
                            let jj = choose|jj: int|
                                0 <= jj < row0.len() && row0[jj] == g@[u as int]@[kk];
                            assert(row@[jj] == g@[u as int]@[kk]);
                        } else {
                            assert(g@[u as int]@[kk] == x);
                        }
                    }
                }
            }
            k += 1;
        }
        r.push(row);
        proof {
            assert(r@[u as int]@ == row@);
            assert forall|y: usize| (g@[u as int]@.contains(y) && !(u == a && y == b))
                implies row@.contains(y) by {
                let kk = choose|kk: int| 0 <= kk < g@[u as int]@.len() && g@[u as int]@[kk] == y;
            }
        }
        u += 1;
    }
    proof {
        assert forall|x: usize, y: usize|
            #[trigger] edge_in(adj_view(r), x, y) <==> (edge_in(adj_view(*g), x, y) && !(x == a
                && y == b)) by {
            if x < n {
                assert(adj_view(r)[x as int] == r@[x as int]@);
                assert(adj_view(*g)[x as int] == g@[x as int]@);
            }
        }
    }
    r
}

} // verus!
