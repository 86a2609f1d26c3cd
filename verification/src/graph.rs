//! A directed graph on node indices, kept acyclic by checking every edge
//! before it is committed.
//!
//! The specification level defines paths and reachability over the edge
//! sequence; the executable level offers a path search whose failure
//! refutes reachability, an edge insertion that either preserves acyclicity
//! or hands back a concrete offending path, and a search for a node without
//! live outgoing edges, which acyclicity proves can never fail.

use vstd::prelude::*;
use vstd::seq_lib::*;
use vstd::set_lib::*;

verus! {

/// A nonempty vertex sequence whose consecutive pairs are all edges.
pub open spec fn valid_path(es: Seq<(usize, usize)>, p: Seq<usize>) -> bool {
    p.len() >= 1 && forall|i: int, j: int|
        0 <= i && j == i + 1 && j < p.len() ==> es.contains(((#[trigger] p[i]), #[trigger] p[j]))
}

/// There is a path (possibly of one vertex) from `a` to `b`.
pub open spec fn reaches(es: Seq<(usize, usize)>, a: usize, b: usize) -> bool {
    exists|p: Seq<usize>| valid_path(es, p) && p.first() == a && p.last() == b
}

/// No edge closes a loop: an edge from `a` to `b` rules out any path from
/// `b` back to `a`.
pub open spec fn acyclic(es: Seq<(usize, usize)>) -> bool {
    forall|a: usize, b: usize| #[trigger] es.contains((a, b)) ==> !reaches(es, b, a)
}

/// Every edge endpoint lies below `n`.
pub open spec fn edges_in_range(es: Seq<(usize, usize)>, n: nat) -> bool {
    forall|k: int| 0 <= k < es.len() ==> (#[trigger] es[k]).0 < n && es[k].1 < n
}

/// Vertex `u` has an outgoing edge to a vertex not marked dead.
pub open spec fn has_live_successor(es: Seq<(usize, usize)>, dead: Seq<bool>, u: usize) -> bool {
    exists|w: usize| #[trigger] es.contains((u, w)) && !dead[w as int]
}

pub proof fn lemma_reaches_self(es: Seq<(usize, usize)>, a: usize)
    ensures
        reaches(es, a, a),
{
    let p: Seq<usize> = seq![a];
    assert(valid_path(es, p) && p.first() == a && p.last() == a);
}

pub proof fn lemma_push_contains<T>(es: Seq<T>, x: T, y: T)
    requires
        es.push(x).contains(y),
    ensures
        es.contains(y) || x == y,
{
    let k = choose|k: int| 0 <= k < es.push(x).len() && es.push(x)[k] == y;
    if k < es.len() {
        assert(es[k] == y);
    }
}

/// A path followed by one more edge is a path.
proof fn lemma_path_push(es: Seq<(usize, usize)>, p: Seq<usize>, c: usize)
    requires
        valid_path(es, p),
        es.contains((p.last(), c)),
    ensures
        valid_path(es, p.push(c)),
{
    let q = p.push(c);
    assert forall|i: int, j: int| 0 <= i && j == i + 1 && j < q.len() implies es.contains(
        ((#[trigger] q[i]), #[trigger] q[j]),
    ) by {
        if j < q.len() - 1 {
            assert(q[i] == p[i] && q[j] == p[j]);
        } else {
            assert(q[i] == p.last() && q[j] == c);
        }
    }
}

pub proof fn lemma_reaches_step(es: Seq<(usize, usize)>, a: usize, b: usize, c: usize)
    requires
        reaches(es, a, b),
        es.contains((b, c)),
    ensures
        reaches(es, a, c),
{
    let p = choose|p: Seq<usize>| valid_path(es, p) && p.first() == a && p.last() == b;
    lemma_path_push(es, p, c);
    let q = p.push(c);
    assert(valid_path(es, q) && q.first() == a && q.last() == c);
}

pub proof fn lemma_reaches_trans(es: Seq<(usize, usize)>, a: usize, b: usize, c: usize)
    requires
        reaches(es, a, b),
        reaches(es, b, c),
    ensures
        reaches(es, a, c),
{
    let q = choose|q: Seq<usize>| valid_path(es, q) && q.first() == b && q.last() == c;
    lemma_extend_along(es, a, q);
}

/// Walks a path forward, extending reachability from `a` to its end.
proof fn lemma_extend_along(es: Seq<(usize, usize)>, a: usize, q: Seq<usize>)
    requires
        valid_path(es, q),
        reaches(es, a, q.first()),
    ensures
        reaches(es, a, q.last()),
    decreases q.len(),
{
    if q.len() > 1 {
        assert(es.contains((q[0], q[1])));
        lemma_reaches_step(es, a, q[0], q[1]);
        let q2 = q.drop_first();
        assert forall|i: int, j: int| 0 <= i && j == i + 1 && j < q2.len() implies es.contains(
            ((#[trigger] q2[i]), #[trigger] q2[j]),
        ) by {
            assert(q2[i] == q[i + 1] && q2[j] == q[j + 1]);
        }
        assert(valid_path(es, q2));
        assert(q2.first() == q[1] && q2.last() == q.last());
        lemma_extend_along(es, a, q2);
    }
}

/// Reachability only grows when edges are added.
pub proof fn lemma_reaches_mono(
    es: Seq<(usize, usize)>,
    es2: Seq<(usize, usize)>,
    a: usize,
    b: usize,
)
    requires
        reaches(es, a, b),
        forall|e: (usize, usize)| es.contains(e) ==> es2.contains(e),
    ensures
        reaches(es2, a, b),
{
    let p = choose|p: Seq<usize>| valid_path(es, p) && p.first() == a && p.last() == b;
    assert forall|i: int, j: int| 0 <= i && j == i + 1 && j < p.len() implies es2.contains(
        ((#[trigger] p[i]), #[trigger] p[j]),
    ) by {
        assert(es.contains((p[i], p[j])));
    }
    assert(valid_path(es2, p) && p.first() == a && p.last() == b);
}

/// Any path in the graph extended by the edge `(a, b)` either avoids the
/// new edge, or decomposes into an old path to `a` and an old path from
/// `b`; this needs that `b` does not already reach `a`.
proof fn lemma_path_in_extended(es: Seq<(usize, usize)>, a: usize, b: usize, p: Seq<usize>)
    requires
        valid_path(es.push((a, b)), p),
        !reaches(es, b, a),
    ensures
        reaches(es, p.first(), p.last()) || (reaches(es, p.first(), a) && reaches(
            es,
            b,
            p.last(),
        )),
    decreases p.len(),
{
    if p.len() == 1 {
        lemma_reaches_self(es, p.first());
    } else {
        let q = p.drop_last();
        assert forall|i: int, j: int| 0 <= i && j == i + 1 && j < q.len() implies es.push(
            (a, b),
        ).contains(((#[trigger] q[i]), #[trigger] q[j])) by {
            assert(q[i] == p[i] && q[j] == p[j]);
        }
        assert(valid_path(es.push((a, b)), q));
        lemma_path_in_extended(es, a, b, q);
        let z = q.last();
        let y = p.last();
        assert(es.push((a, b)).contains((z, y))) by {
            assert(p[p.len() - 2] == z && p[p.len() - 1] == y);
        }
        lemma_push_contains(es, (a, b), (z, y));
        assert(p.first() == q.first());
        if es.contains((z, y)) {
            if reaches(es, q.first(), z) {
                lemma_reaches_step(es, q.first(), z, y);
            } else {
                lemma_reaches_step(es, b, z, y);
            }
        } else {
            // the last step is the new edge itself: z == a, y == b
            if reaches(es, q.first(), z) {
                lemma_reaches_self(es, b);
            } else {
                // reaches(es, b, z) would close the forbidden loop b -> a
                assert(false);
            }
        }
    }
}

/// Adding an edge whose target does not already reach its source keeps the
/// graph acyclic.
pub proof fn lemma_acyclic_push(es: Seq<(usize, usize)>, a: usize, b: usize)
    requires
        acyclic(es),
        !reaches(es, b, a),
    ensures
        acyclic(es.push((a, b))),
{
    let es2 = es.push((a, b));
    assert forall|v: usize, w: usize| #[trigger] es2.contains((v, w)) implies !reaches(
        es2,
        w,
        v,
    ) by {
        if reaches(es2, w, v) {
            let p = choose|p: Seq<usize>| valid_path(es2, p) && p.first() == w && p.last() == v;
            lemma_path_in_extended(es, a, b, p);
            lemma_push_contains(es, (a, b), (v, w));
            if es.contains((v, w)) {
                if reaches(es, w, v) {
                    assert(false);
                } else {
                    lemma_reaches_step(es, b, v, w);
                    lemma_reaches_trans(es, b, w, a);
                    assert(false);
                }
            } else {
                // (v, w) is the new edge: a path from b back to a existed
                assert(v == a && w == b);
                assert(false);
            }
        }
    }
}

/// In an acyclic graph no path revisits a vertex.
pub proof fn lemma_acyclic_no_dup(es: Seq<(usize, usize)>, p: Seq<usize>)
    requires
        acyclic(es),
        valid_path(es, p),
    ensures
        p.no_duplicates(),
{
    if !p.no_duplicates() {
        let (i, j) = choose|i: int, j: int|
            0 <= i < p.len() && 0 <= j < p.len() && i != j && p[i] == p[j];
        let (lo, hi) = if i < j {
            (i, j)
        } else {
            (j, i)
        };
        // the segment between the two visits is a loop
        assert(es.contains((p[lo], p[lo + 1])));
        let q = p.subrange(lo + 1, hi + 1);
        assert forall|k: int, l: int| 0 <= k && l == k + 1 && l < q.len() implies es.contains(
            ((#[trigger] q[k]), #[trigger] q[l]),
        ) by {
            assert(q[k] == p[lo + 1 + k] && q[l] == p[lo + 1 + l]);
        }
        assert(valid_path(es, q) && q.first() == p[lo + 1] && q.last() == p[hi]);
        assert(reaches(es, p[lo + 1], p[lo]));
        assert(false);
    }
}

/// If every live vertex had a live successor, arbitrarily long live paths
/// would exist.
proof fn lemma_long_live_path(es: Seq<(usize, usize)>, dead: Seq<bool>, start: usize, k: nat)
    requires
        edges_in_range(es, dead.len()),
        start < dead.len(),
        !dead[start as int],
        forall|v: usize|
            v < dead.len() && !dead[v as int] ==> #[trigger] has_live_successor(es, dead, v),
    ensures
        exists|p: Seq<usize>|
            valid_path(es, p) && p.len() == k + 1 && p.first() == start && forall|i: int|
                0 <= i < p.len() ==> p[i] < dead.len() && !dead[(#[trigger] p[i]) as int],
    decreases k,
{
    if k == 0 {
        let p: Seq<usize> = seq![start];
        assert(valid_path(es, p) && p.len() == 1 && p.first() == start);
        assert(forall|i: int|
            0 <= i < p.len() ==> p[i] < dead.len() && !dead[(#[trigger] p[i]) as int]);
    } else {
        lemma_long_live_path(es, dead, start, (k - 1) as nat);
        let p = choose|p: Seq<usize>|
            valid_path(es, p) && p.len() == (k - 1) + 1 && p.first() == start && forall|i: int|
                0 <= i < p.len() ==> p[i] < dead.len() && !dead[(#[trigger] p[i]) as int];
        let z = p.last();
        assert(has_live_successor(es, dead, z));
        let w = choose|w: usize| #[trigger] es.contains((z, w)) && !dead[w as int];
        let kk = choose|kk: int| 0 <= kk < es.len() && es[kk] == (z, w);
        assert(w < dead.len());
        lemma_path_push(es, p, w);
        let q = p.push(w);
        assert(valid_path(es, q) && q.len() == k + 1 && q.first() == start);
        assert forall|i: int|
            0 <= i < q.len() implies q[i] < dead.len() && !dead[(#[trigger] q[i]) as int] by {
            if i < q.len() - 1 {
                assert(q[i] == p[i]);
            } else {
                assert(q[i] == w);
            }
        }
    }
}

/// A sequence of distinct integers drawn from `[0, n)` has at most `n`
/// elements.
pub proof fn lemma_bounded_distinct_len(q: Seq<int>, n: nat)
    requires
        q.no_duplicates(),
        forall|i: int| 0 <= i < q.len() ==> 0 <= #[trigger] q[i] < n,
    ensures
        q.len() <= n,
{
    q.unique_seq_to_set();
    lemma_int_range(0, n as int);
    assert(q.to_set().subset_of(set_int_range(0, n as int)));
    lemma_len_subset(q.to_set(), set_int_range(0, n as int));
}

/// Contrapositive form of sink existence: with a live vertex present, the
/// live vertices cannot all have live successors.
pub proof fn lemma_some_live_sink(es: Seq<(usize, usize)>, dead: Seq<bool>)
    requires
        acyclic(es),
        edges_in_range(es, dead.len()),
        dead.len() <= usize::MAX,
        exists|v: int| 0 <= v < dead.len() && !dead[v],
    ensures
        !(forall|u: usize|
            u < dead.len() && !dead[u as int] ==> #[trigger] has_live_successor(es, dead, u)),
{
    if (forall|u: usize|
        u < dead.len() && !dead[u as int] ==> #[trigger] has_live_successor(es, dead, u)) {
        lemma_live_sink_exists(es, dead);
        let s = choose|s: usize|
            s < dead.len() && !dead[s as int] && forall|w: usize|
                #[trigger] es.contains((s, w)) ==> dead[w as int];
        assert(has_live_successor(es, dead, s));
        let w = choose|w: usize| #[trigger] es.contains((s, w)) && !dead[w as int];
        assert(false);
    }
}

/// Acyclicity guarantees a live vertex without live successors, as long as
/// any live vertex remains.
pub proof fn lemma_live_sink_exists(es: Seq<(usize, usize)>, dead: Seq<bool>)
    requires
        acyclic(es),
        edges_in_range(es, dead.len()),
        dead.len() <= usize::MAX,
        exists|v: int| 0 <= v < dead.len() && !dead[v],
    ensures
        exists|v: usize|
            v < dead.len() && !dead[v as int] && forall|w: usize|
                #[trigger] es.contains((v, w)) ==> dead[w as int],
{
    if forall|v: usize|
        v < dead.len() && !dead[v as int] ==> #[trigger] has_live_successor(es, dead, v) {
        let v0 = choose|v: int| 0 <= v < dead.len() && !dead[v];
        assert(0 <= v0 <= usize::MAX as int);
        let s0 = v0 as usize;
        assert(s0 as int == v0);
        lemma_long_live_path(es, dead, s0, dead.len());
        let p = choose|p: Seq<usize>|
            valid_path(es, p) && p.len() == dead.len() + 1 && p.first() == s0 && forall|i: int|
                0 <= i < p.len() ==> p[i] < dead.len() && !dead[(#[trigger] p[i]) as int];
        lemma_acyclic_no_dup(es, p);
        let q = p.map_values(|x: usize| x as int);
        assert(q.no_duplicates()) by {
            assert forall|i: int, j: int|
                0 <= i < q.len() && 0 <= j < q.len() && i != j implies q[i] != q[j] by {
                assert(q[i] == p[i] as int && q[j] == p[j] as int);
            }
        }
        assert forall|i: int| 0 <= i < q.len() implies 0 <= #[trigger] q[i] < dead.len() by {
            assert(q[i] == p[i] as int);
        }
        lemma_bounded_distinct_len(q, dead.len());
        assert(false);
    }
}

/// Copies a vector of node indices.
pub fn clone_index_vec(v: &Vec<usize>) -> (r: Vec<usize>)
    ensures
        r@ == v@,
{
    let mut r: Vec<usize> = Vec::new();
    let mut i: usize = 0;
    while i < v.len()
        invariant
            i <= v@.len(),
            r@ == v@.take(i as int),
        decreases v@.len() - i,
    {
        r.push(v[i]);
        proof {
            assert(v@.take(i + 1) =~= v@.take(i as int).push(v@[i as int]));
        }
        i = i + 1;
    }
    proof {
        assert(v@.take(v@.len() as int) =~= v@);
    }
    r
}

/// How many entries of `vis` are set.
pub open spec fn count_marked(vis: Seq<bool>) -> nat
    decreases vis.len(),
{
    if vis.len() == 0 {
        0
    } else {
        count_marked(vis.drop_last()) + if vis.last() {
            1nat
        } else {
            0
        }
    }
}

pub proof fn lemma_count_le_len(vis: Seq<bool>)
    ensures
        count_marked(vis) <= vis.len(),
    decreases vis.len(),
{
    if vis.len() > 0 {
        lemma_count_le_len(vis.drop_last());
    }
}

pub proof fn lemma_count_update(vis: Seq<bool>, i: int)
    requires
        0 <= i < vis.len(),
        !vis[i],
    ensures
        count_marked(vis.update(i, true)) == count_marked(vis) + 1,
    decreases vis.len(),
{
    let v2 = vis.update(i, true);
    if i == vis.len() - 1 {
        assert(v2.drop_last() =~= vis.drop_last());
    } else {
        assert(v2.drop_last() =~= vis.drop_last().update(i, true));
        lemma_count_update(vis.drop_last(), i);
    }
}

pub proof fn lemma_count_all_false(vis: Seq<bool>)
    requires
        forall|j: int| 0 <= j < vis.len() ==> !vis[j],
    ensures
        count_marked(vis) == 0,
    decreases vis.len(),
{
    if vis.len() > 0 {
        lemma_count_all_false(vis.drop_last());
    }
}

/// Fewer marks than entries leaves some entry unmarked.
pub proof fn lemma_count_lt_exists_false(vis: Seq<bool>)
    requires
        count_marked(vis) < vis.len(),
    ensures
        exists|i: int| 0 <= i < vis.len() && !vis[i],
    decreases vis.len(),
{
    if !vis.last() {
        assert(!vis[vis.len() - 1]);
    } else {
        lemma_count_lt_exists_false(vis.drop_last());
        let i = choose|i: int| 0 <= i < vis.drop_last().len() && !vis.drop_last()[i];
        assert(!vis[i]);
    }
}

/// As many marks as entries means every entry is marked.
pub proof fn lemma_count_full(vis: Seq<bool>)
    requires
        count_marked(vis) == vis.len(),
    ensures
        forall|i: int| 0 <= i < vis.len() ==> vis[i],
    decreases vis.len(),
{
    if vis.len() > 0 {
        lemma_count_le_len(vis.drop_last());
        lemma_count_full(vis.drop_last());
        assert forall|i: int| 0 <= i < vis.len() implies vis[i] by {
            if i < vis.len() - 1 {
                assert(vis.drop_last()[i]);
            }
        }
    }
}

/// A fully expanded visited set traps every path that starts inside it.
proof fn lemma_closed_visited(es: Seq<(usize, usize)>, vis: Seq<bool>, p: Seq<usize>, n: nat)
    requires
        vis.len() == n,
        edges_in_range(es, n),
        valid_path(es, p),
        p.first() < n,
        vis[p.first() as int],
        forall|v: usize, w: usize|
            v < n && vis[v as int] && #[trigger] es.contains((v, w)) ==> vis[w as int],
    ensures
        p.last() < n && vis[p.last() as int],
    decreases p.len(),
{
    if p.len() > 1 {
        assert(es.contains((p[0], p[1])));
        let k = choose|k: int| 0 <= k < es.len() && es[k] == (p[0], p[1]);
        let q = p.drop_first();
        assert forall|i: int, j: int| 0 <= i && j == i + 1 && j < q.len() implies es.contains(
            ((#[trigger] q[i]), #[trigger] q[j]),
        ) by {
            assert(q[i] == p[i + 1] && q[j] == p[j + 1]);
        }
        assert(valid_path(es, q));
        assert(q.first() == p[1]);
        lemma_closed_visited(es, vis, q, n);
    }
}

/// The import graph structure: `n` nodes and a list of directed edges.
pub struct DiGraph {
    pub n: usize,
    pub edges: Vec<(usize, usize)>,
}

impl DiGraph {
    pub open spec fn wf(&self) -> bool {
        edges_in_range(self.edges@, self.n as nat)
    }

    pub fn new() -> (r: Self)
        ensures
            r.wf(),
            r.n == 0,
            r.edges@.len() == 0,
    {
        DiGraph { n: 0, edges: Vec::new() }
    }

    /// Allocates a fresh node and returns its index.
    pub fn add_node(&mut self) -> (r: usize)
        requires
            old(self).wf(),
            old(self).n < usize::MAX,
        ensures
            final(self).wf(),
            r == old(self).n,
            final(self).n == old(self).n + 1,
            final(self).edges@ == old(self).edges@,
    {
        let r = self.n;
        self.n = self.n + 1;
        r
    }

    /// Searches for a path from `from` to `to`; `None` refutes
    /// reachability.
    pub fn find_path(&self, from: usize, to: usize) -> (r: Option<Vec<usize>>)
        requires
            self.wf(),
            from < self.n,
            to < self.n,
        ensures
            match r {
                Some(p) => valid_path(self.edges@, p@) && p@.first() == from && p@.last() == to,
                None => !reaches(self.edges@, from, to),
            },
    {
        let es = &self.edges;
        if from == to {
            let mut p: Vec<usize> = Vec::new();
            p.push(from);
            return Some(p);
        }
        let mut visited: Vec<bool> = Vec::new();
        let mut i: usize = 0;
        while i < self.n
            invariant
                i <= self.n,
                visited@.len() == i,
                forall|j: int| 0 <= j < i ==> !visited@[j],
            decreases self.n - i,
        {
            visited.push(false);
            i = i + 1;
        }
        proof {
            lemma_count_all_false(visited@);
        }
        let ghost vis0 = visited@;
        visited[from] = true;
        proof {
            lemma_count_update(vis0, from as int);
            lemma_count_le_len(visited@);
        }
        let mut count: usize = 1;
        let mut start: Vec<usize> = Vec::new();
        start.push(from);
        let mut queue: Vec<Vec<usize>> = Vec::new();
        queue.push(start);
        let mut head: usize = 0;
        proof {
            assert(queue@[0]@.last() == from);
            assert forall|v: usize|
                v < self.n && visited@[v as int] implies exists|k: int|
                    0 <= k < queue@.len() && (#[trigger] queue@[k])@.last() == v by {
                assert(v == from);
                assert(queue@[0]@.last() == v);
            }
        }
        while head < queue.len()
            invariant
                self.wf(),
                es@ == self.edges@,
                from < self.n,
                to < self.n,
                from != to,
                visited@.len() == self.n,
                head <= queue@.len(),
                queue@.len() <= count,
                count == count_marked(visited@),
                count <= self.n,
                visited@[from as int],
                !visited@[to as int],
                forall|k: int|
                    0 <= k < queue@.len() ==> valid_path(self.edges@, (#[trigger] queue@[k])@)
                        && queue@[k]@.first() == from && queue@[k]@.last() < self.n
                        && visited@[queue@[k]@.last() as int],
                forall|v: usize|
                    v < self.n && visited@[v as int] ==> exists|k: int|
                        0 <= k < queue@.len() && (#[trigger] queue@[k])@.last() == v,
                forall|k: int, w: usize|
                    0 <= k < head && #[trigger] self.edges@.contains((queue@[k]@.last(), w)) ==> w
                        < self.n && visited@[w as int],
            decreases self.n - head,
        {
            let path = clone_index_vec(&queue[head]);
            let cur = path[path.len() - 1];
            let mut k: usize = 0;
            while k < es.len()
                invariant
                    self.wf(),
                    from < self.n,
                    to < self.n,
                    from != to,
                    es@ == self.edges@,
                    head < queue@.len(),
                    visited@.len() == self.n,
                    queue@.len() <= count,
                    count == count_marked(visited@),
                    count <= self.n,
                    k <= es@.len(),
                    valid_path(self.edges@, path@),
                    path@.first() == from,
                    path@.last() == cur,
                    cur < self.n,
                    visited@[from as int],
                    !visited@[to as int],
                    forall|kk: int|
                        0 <= kk < queue@.len() ==> valid_path(self.edges@, (#[trigger] queue@[kk])@)
                            && queue@[kk]@.first() == from && queue@[kk]@.last() < self.n
                            && visited@[queue@[kk]@.last() as int],
                    forall|v: usize|
                        v < self.n && visited@[v as int] ==> exists|kk: int|
                            0 <= kk < queue@.len() && (#[trigger] queue@[kk])@.last() == v,
                    forall|kk: int, w: usize|
                        0 <= kk < head && #[trigger] self.edges@.contains((queue@[kk]@.last(), w))
                            ==> w < self.n && visited@[w as int],
                    queue@[head as int]@.last() == cur,
                    forall|j: int|
                        0 <= j < k && (#[trigger] es@[j]).0 == cur ==> es@[j].1 < self.n
                            && visited@[es@[j].1 as int],
                decreases es@.len() - k,
            {
                let (src, dst) = es[k];
                proof {
                    assert(es@[k as int].0 < self.n && es@[k as int].1 < self.n);
                }
                if src == cur {
                    proof {
                        assert(self.edges@[k as int] == (cur, dst));
                        assert(self.edges@.contains((cur, dst)));
                    }
                    if dst == to {
                        let mut p2 = path;
                        proof {
                            lemma_path_push(self.edges@, p2@, dst);
                        }
                        p2.push(dst);
                        return Some(p2);
                    }
                    if !visited[dst] {
                        let ghost visb = visited@;
                        visited[dst] = true;
                        proof {
                            lemma_count_update(visb, dst as int);
                            lemma_count_le_len(visited@);
                        }
                        count = count + 1;
                        let mut p2 = clone_index_vec(&path);
                        proof {
                            lemma_path_push(self.edges@, p2@, dst);
                        }
                        p2.push(dst);
                        let ghost q0 = queue@;
                        queue.push(p2);
                        proof {
                            assert forall|v: usize|
                                v < self.n && visited@[v as int] implies exists|kk: int|
                                    0 <= kk < queue@.len() && (#[trigger] queue@[kk])@.last()
                                        == v by {
                                if v == dst {
                                    assert(queue@[queue@.len() - 1]@.last() == v);
                                } else {
                                    assert(visb[v as int]);
                                    let kk = choose|kk: int|
                                        0 <= kk < q0.len() && (#[trigger] q0[kk])@.last() == v;
                                    assert(queue@[kk]@.last() == v);
                                }
                            }
                        }
                    }
                }
                k = k + 1;
            }
            proof {
                assert forall|w: usize| #[trigger] self.edges@.contains((cur, w)) implies w
                    < self.n && visited@[w as int] by {
                    let j = choose|j: int| 0 <= j < es@.len() && es@[j] == (cur, w);
                }
            }
            head = head + 1;
        }
        proof {
            // the frontier is exhausted: the visited set is closed under
            // successors, so no path can leave it and reach `to`
            assert forall|v: usize, w: usize|
                v < self.n && visited@[v as int] && #[trigger] self.edges@.contains(
                    (v, w),
                ) implies visited@[w as int] by {
                let k = choose|k: int| 0 <= k < queue@.len() && (#[trigger] queue@[k])@.last() == v;
                assert(k < head);
            }
            if reaches(self.edges@, from, to) {
                let p = choose|p: Seq<usize>|
                    valid_path(self.edges@, p) && p.first() == from && p.last() == to;
                lemma_closed_visited(self.edges@, visited@, p, self.n as nat);
            }
        }
        None
    }

    /// Adds the edge `(a, b)` if it keeps the graph acyclic; otherwise
    /// leaves the graph unchanged and returns a path from `b` to `a` that,
    /// together with the rejected edge, forms the cycle.
    pub fn add_edge_checked(&mut self, a: usize, b: usize) -> (r: Result<(), Vec<usize>>)
        requires
            old(self).wf(),
            a < old(self).n,
            b < old(self).n,
            acyclic(old(self).edges@),
        ensures
            final(self).wf(),
            final(self).n == old(self).n,
            match r {
                Ok(()) => final(self).edges@ == old(self).edges@.push((a, b)) && acyclic(
                    final(self).edges@,
                ),
                Err(p) => final(self).edges@ == old(self).edges@ && valid_path(
                    old(self).edges@,
                    p@,
                ) && p@.first() == b && p@.last() == a,
            },
    {
        match self.find_path(b, a) {
            Some(p) => Err(p),
            None => {
                proof {
                    lemma_acyclic_push(self.edges@, a, b);
                }
                self.edges.push((a, b));
                Ok(())
            },
        }
    }

    /// Finds a live node none of whose successors is live.  Acyclicity
    /// proves such a node exists whenever any live node remains.
    pub fn find_live_sink(&self, dead: &Vec<bool>) -> (r: usize)
        requires
            self.wf(),
            dead@.len() == self.n,
            acyclic(self.edges@),
            exists|v: int| 0 <= v < self.n && !dead@[v],
        ensures
            r < self.n,
            !dead@[r as int],
            forall|w: usize| #[trigger] self.edges@.contains((r, w)) ==> dead@[w as int],
    {
        let es = &self.edges;
        let mut v: usize = 0;
        while v < self.n
            invariant
                self.wf(),
                dead@.len() == self.n,
                es@ == self.edges@,
                v <= self.n,
                forall|u: usize|
                    u < v && !dead@[u as int] ==> #[trigger] has_live_successor(
                        self.edges@,
                        dead@,
                        u,
                    ),
            decreases self.n - v,
        {
            if !dead[v] {
                let mut all_dead = true;
                let mut k: usize = 0;
                while k < es.len()
                    invariant
                        self.wf(),
                        dead@.len() == self.n,
                        es@ == self.edges@,
                        v < self.n,
                        k <= es@.len(),
                        all_dead ==> forall|j: int|
                            0 <= j < k && (#[trigger] es@[j]).0 == v ==> dead@[es@[j].1 as int],
                        !all_dead ==> has_live_successor(self.edges@, dead@, v),
                    decreases es@.len() - k,
                {
                    let (src, dst) = es[k];
                    if src == v && !dead[dst] {
                        proof {
                            assert(self.edges@[k as int] == (v, dst));
                            assert(self.edges@.contains((v, dst)));
                            assert(has_live_successor(self.edges@, dead@, v));
                        }
                        all_dead = false;
                    }
                    k = k + 1;
                }
                if all_dead {
                    proof {
                        assert forall|w: usize| #[trigger] self.edges@.contains(
                            (v, w),
                        ) implies dead@[w as int] by {
                            let j = choose|j: int| 0 <= j < es@.len() && es@[j] == (v, w);
                        }
                    }
                    return v;
                }
            }
            v = v + 1;
        }
        proof {
            // the scan found a live successor for every live vertex, which
            // contradicts the sink that acyclicity guarantees
            lemma_some_live_sink(self.edges@, dead@);
        }
        vstd::pervasive::unreached()
    }
}

} // verus!
