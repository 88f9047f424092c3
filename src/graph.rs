//! Graphs and their tubes: the connected proper subsets of the vertices,
//! which ordered by inclusion form the face lattice of a graph associahedron.

use vstd::prelude::*;
use crate::interval::contains;
use crate::lattice::{lattice_from_faces, lemma_max_rank_bound, Face, Lattice};
use itertools::Itertools;

verus! {

/// A graph given by its vertices and its undirected edges.
#[derive(Debug)]
pub struct Graph {
    pub vertices: Vec<usize>,
    pub edges: Vec<[usize; 2]>,
    /// The tubes, once computed.
    pub tubes: Option<Vec<Vec<usize>>>,
}

/// Some edge joins `a` and `b`, in either direction.
pub open spec fn linked(edges: Seq<[usize; 2]>, a: usize, b: usize) -> bool {
    exists|k: int|
        0 <= k < edges.len() && ((edges[k]@[0] == a && edges[k]@[1] == b) || (edges[k]@[0] == b
            && edges[k]@[1] == a))
}

/// `p` is a walk inside `vs`: every step joins two linked vertices of `vs`.
pub open spec fn is_walk(edges: Seq<[usize; 2]>, vs: Seq<usize>, p: Seq<usize>) -> bool {
    &&& p.len() > 0
    &&& forall|i: int| 0 <= i < p.len() ==> vs.contains(#[trigger] p[i])
    &&& forall|i: int| 0 <= i < p.len() - 1 ==> linked(edges, #[trigger] p[i], p[i + 1])
}

/// A walk inside `vs` leads from `a` to `b`.
pub open spec fn reachable(edges: Seq<[usize; 2]>, vs: Seq<usize>, a: usize, b: usize) -> bool {
    exists|p: Seq<usize>| #[trigger] is_walk(edges, vs, p) && p[0] == a && p.last() == b
}

/// `vs` is non-empty and every vertex of it is reachable inside it from its
/// first one.
pub open spec fn connected(edges: Seq<[usize; 2]>, vs: Seq<usize>) -> bool {
    vs.len() > 0 && forall|v: usize| vs.contains(v) ==> #[trigger] reachable(edges, vs, vs[0], v)
}

/// Every vertex of `vs` linked to a member of `found` is a member too.
pub open spec fn closed(edges: Seq<[usize; 2]>, vs: Seq<usize>, found: Seq<usize>) -> bool {
    forall|i: int, w: usize|
        0 <= i < found.len() && vs.contains(w) && #[trigger] linked(edges, found[i], w) ==> found.contains(w)
}

proof fn lemma_walk_stays(edges: Seq<[usize; 2]>, vs: Seq<usize>, found: Seq<usize>, p: Seq<usize>)
    requires
        is_walk(edges, vs, p),
        found.contains(p[0]),
        closed(edges, vs, found),
    ensures
        found.contains(p.last()),
    decreases p.len(),
{
    if p.len() > 1 {
        let q = p.drop_last();
        assert forall|i: int| 0 <= i < q.len() - 1 implies linked(edges, #[trigger] q[i], q[i + 1]) by {
            assert(linked(edges, p[i], p[i + 1]));
        }
        assert forall|i: int| 0 <= i < q.len() implies vs.contains(#[trigger] q[i]) by {
            assert(vs.contains(p[i]));
        }
        lemma_walk_stays(edges, vs, found, q);
        let u = q.last();
        let j = choose|j: int| 0 <= j < found.len() && found[j] == u;
        assert(linked(edges, p[p.len() - 2], p[p.len() - 1]));
        assert(vs.contains(p[p.len() - 1]));
        assert(linked(edges, found[j], p.last()));
    }
}

proof fn lemma_distinct_members_bounded(f: Seq<usize>, v: Seq<usize>)
    requires
        f.no_duplicates(),
        forall|i: int| 0 <= i < f.len() ==> v.contains(#[trigger] f[i]),
    ensures
        f.len() <= v.len(),
{
    f.unique_seq_to_set();
    v.lemma_cardinality_of_set();
    assert(f.to_set().subset_of(v.to_set())) by {
        assert forall|x: usize| f.to_set().contains(x) implies v.to_set().contains(x) by {
            let i = choose|i: int| 0 <= i < f.len() && f[i] == x;
            assert(v.contains(f[i]));
        }
    }
    vstd::set_lib::lemma_len_subset(f.to_set(), v.to_set());
}

impl Graph {
    /// Whether `vertices` is non-empty and connected by the edges of the
    /// graph that join two of its members.
    pub fn is_connected(&self, vertices: &Vec<usize>) -> (r: bool)
        ensures
            r == connected(self.edges@, vertices@),
    {
        let ghost es = self.edges@;
        let ghost vs = vertices@;
        if vertices.len() == 0 {
            return false;
        }
        let s = vertices[0];
        let mut found: Vec<usize> = Vec::new();
        found.push(s);
        proof {
            let p = seq![s];
            assert(is_walk(es, vs, p));
            assert(found@[0] == s);
        }
        let mut qi: usize = 0;
        while qi < found.len()
            invariant
                es == self.edges@,
                vs == vertices@,
                vs.len() > 0,
                s == vs[0],
                found@.len() >= 1,
                found@[0] == s,
                qi <= found@.len(),
                found@.len() <= vs.len(),
                found@.no_duplicates(),
                forall|i: int| 0 <= i < found@.len() ==> vs.contains(#[trigger] found@[i]),
                forall|i: int| 0 <= i < found@.len() ==> #[trigger] reachable(es, vs, s, found@[i]),
                forall|i: int, w: usize|
                    0 <= i < qi && vs.contains(w) && #[trigger] linked(es, found@[i], w) ==> found@.contains(w),
            decreases vs.len() - qi,
        {
            let u = found[qi];
            let mut k: usize = 0;
            while k < self.edges.len()
                invariant
                    es == self.edges@,
                    vs == vertices@,
                    vs.len() > 0,
                    s == vs[0],
                    found@.len() >= 1,
                    found@[0] == s,
                    qi < found@.len(),
                    u == found@[qi as int],
                    k <= es.len(),
                    found@.len() <= vs.len(),
                    found@.no_duplicates(),
                    forall|i: int| 0 <= i < found@.len() ==> vs.contains(#[trigger] found@[i]),
                    forall|i: int| 0 <= i < found@.len() ==> #[trigger] reachable(es, vs, s, found@[i]),
                    forall|i: int, w: usize|
                        0 <= i < qi && vs.contains(w) && #[trigger] linked(es, found@[i], w)
                            ==> found@.contains(w),
                    forall|j: int|
                        0 <= j < k ==> (#[trigger] es[j]@[0] == u && vs.contains(es[j]@[1])
                            ==> found@.contains(es[j]@[1])),
                    forall|j: int|
                        0 <= j < k ==> (#[trigger] es[j]@[1] == u && vs.contains(es[j]@[0])
                            ==> found@.contains(es[j]@[0])),
                decreases es.len() - k,
            {
                let ghost f0 = found@;
                let e = self.edges[k];
                let a = e[0];
                let b = e[1];
                if a == u && contains(vertices, b) && !contains(&found, b) {
                    proof {
                        self.lemma_extend_reach(es, vs, s, found@, qi as int, k as int, b);
                    }
                    found.push(b);
                    proof {
                        lemma_push_fresh(found@.drop_last(), b);
                        lemma_distinct_members_bounded(found@, vs);
                        assert(found@[found@.len() - 1] == b);
                    }
                }
                proof {
                    assert(a == e@[0] && b == e@[1] && e == es[k as int]);
                    assert(a == u && vs.contains(b) ==> found@.contains(b));
                }
                let ghost fm = found@;
                if b == u && contains(vertices, a) && !contains(&found, a) {
                    proof {
                        self.lemma_extend_reach(es, vs, s, found@, qi as int, k as int, a);
                    }
                    found.push(a);
                    proof {
                        lemma_push_fresh(found@.drop_last(), a);
                        lemma_distinct_members_bounded(found@, vs);
                        assert(found@[found@.len() - 1] == a);
                    }
                }
                proof {
                    assert(b == u && vs.contains(a) ==> found@.contains(a));
                    if fm.contains(b) {
                        let t = choose|t: int| 0 <= t < fm.len() && fm[t] == b;
                        assert(found@[t] == b);
                    }
                }
                proof {
                    let f1 = found@;
                    assert(f1.len() >= f0.len());
                    assert forall|i: int| 0 <= i < f0.len() implies f1[i] == f0[i] by {}
                    assert forall|y: usize| f0.contains(y) implies f1.contains(y) by {
                        let t = choose|t: int| 0 <= t < f0.len() && f0[t] == y;
                        assert(f1[t] == y);
                    }
                    assert forall|i: int, w: usize|
                        0 <= i < qi && vs.contains(w) && #[trigger] linked(es, f1[i], w) implies f1.contains(w) by {
                        assert(f1[i] == f0[i]);
                        assert(linked(es, f0[i], w));
                    }
                    assert forall|j: int|
                        0 <= j <= k implies (#[trigger] es[j]@[0] == u && vs.contains(es[j]@[1])
                        ==> f1.contains(es[j]@[1])) by {
                        if j < k && es[j]@[0] == u && vs.contains(es[j]@[1]) {
                            assert(f0.contains(es[j]@[1]));
                        }
                    }
                    assert forall|j: int|
                        0 <= j <= k implies (#[trigger] es[j]@[1] == u && vs.contains(es[j]@[0])
                        ==> f1.contains(es[j]@[0])) by {
                        if j < k && es[j]@[1] == u && vs.contains(es[j]@[0]) {
                            assert(f0.contains(es[j]@[0]));
                        }
                    }
                }
                k += 1;
            }
            proof {
                assert forall|i: int, w: usize|
                    0 <= i < qi + 1 && vs.contains(w) && #[trigger] linked(es, found@[i], w)
                        implies found@.contains(w) by {
                    if i == qi {
                        let j = choose|j: int|
                            0 <= j < es.len() && ((es[j]@[0] == found@[i] && es[j]@[1] == w) || (
                            es[j]@[0] == w && es[j]@[1] == found@[i]));
                        if es[j]@[0] == found@[i] && es[j]@[1] == w {
                        } else {
                        }
                    }
                }
            }
            qi += 1;
        }
        let mut i: usize = 0;
        while i < vertices.len()
            invariant
                es == self.edges@,
                vs == vertices@,
                vs.len() > 0,
                s == vs[0],
                found@.len() >= 1,
                found@[0] == s,
                qi == found@.len(),
                forall|j: int| 0 <= j < found@.len() ==> #[trigger] reachable(es, vs, s, found@[j]),
                forall|j: int, w: usize|
                    0 <= j < qi && vs.contains(w) && #[trigger] linked(es, found@[j], w) ==> found@.contains(w),
                i <= vs.len(),
                forall|j: int| 0 <= j < i ==> found@.contains(#[trigger] vs[j]),
            decreases vs.len() - i,
        {
            let v = vertices[i];
            if !contains(&found, v) {
                proof {
                    if reachable(es, vs, s, v) {
                        let p = choose|p: Seq<usize>| #[trigger] is_walk(es, vs, p) && p[0] == s && p.last() == v;
                        assert(found@.contains(found@[0]));
                        lemma_walk_stays(es, vs, found@, p);
                    }
                    assert(vs.contains(v));
                }
                return false;
            }
            i += 1;
        }
        proof {
            assert forall|v: usize| vs.contains(v) implies #[trigger] reachable(es, vs, vs[0], v) by {
                let j = choose|j: int| 0 <= j < vs.len() && vs[j] == v;
                assert(found@.contains(vs[j]));
                let t = choose|t: int| 0 <= t < found@.len() && found@[t] == v;
                assert(reachable(es, vs, s, found@[t]));
            }
        }
        true
    }

    proof fn lemma_extend_reach(
        &self,
        es: Seq<[usize; 2]>,
        vs: Seq<usize>,
        s: usize,
        found: Seq<usize>,
        qi: int,
        k: int,
        w: usize,
    )
        requires
            0 <= qi < found.len(),
            0 <= k < es.len(),
            (es[k]@[0] == found[qi] && es[k]@[1] == w) || (es[k]@[1] == found[qi] && es[k]@[0] == w),
            vs.contains(w),
            reachable(es, vs, s, found[qi]),
        ensures
            reachable(es, vs, s, w),
    {
        let p = choose|p: Seq<usize>| #[trigger] is_walk(es, vs, p) && p[0] == s && p.last() == found[qi];
        let q = p.push(w);
        assert(linked(es, found[qi], w));
        assert forall|i: int| 0 <= i < q.len() - 1 implies linked(es, #[trigger] q[i], q[i + 1]) by {
            if i < p.len() - 1 {
                assert(linked(es, p[i], p[i + 1]));
            }
        }
        assert forall|i: int| 0 <= i < q.len() implies vs.contains(#[trigger] q[i]) by {
            if i < p.len() {
                assert(vs.contains(p[i]));
            }
        }
        assert(is_walk(es, vs, q));
    }
}

proof fn lemma_push_fresh(f: Seq<usize>, x: usize)
    requires
        f.no_duplicates(),
        !f.contains(x),
    ensures
        f.push(x).no_duplicates(),
{
    assert forall|i: int, j: int| 0 <= i < j < f.push(x).len() implies f.push(x)[i] != f.push(x)[j] by {
        if j == f.len() {
            assert(f.contains(f[i]));
        }
    }
}

/// The `k`-element subsequences of `s`, taken by increasing positions, in
/// lexicographic order of those positions.
pub open spec fn combos(s: Seq<usize>, k: nat) -> Seq<Seq<usize>>
    decreases s.len(),
{
    if k == 0 {
        seq![seq![]]
    } else if s.len() == 0 {
        seq![]
    } else {
        combos(s.drop_first(), (k - 1) as nat).map_values(|c: Seq<usize>| seq![s[0]] + c) + combos(
            s.drop_first(),
            k,
        )
    }
}

/// Relies on itertools' `Itertools::combinations`: the `k`-element
/// combinations of the items, each by increasing positions, in lexicographic
/// order of the positions; a single empty one for `k == 0`.
#[verifier::external_body]
fn combinations_of(items: &Vec<usize>, k: usize) -> (r: Vec<Vec<usize>>)
    ensures
        r.deep_view() == combos(items@, k as nat),
{
    items.iter().cloned().combinations(k).collect()
}

/// The subsequences of `s` with fewer than `m` elements, the smaller first.
pub open spec fn subsets_below(s: Seq<usize>, m: int) -> Seq<Seq<usize>>
    decreases m,
{
    if m <= 0 {
        seq![]
    } else {
        subsets_below(s, m - 1) + combos(s, (m - 1) as nat)
    }
}

/// The proper subsequences of `items` (every size below its length), the
/// smaller first and those of one size in lexicographic order.
pub fn subsets(items: &Vec<usize>) -> (r: Vec<Vec<usize>>)
    ensures
        r.deep_view() == subsets_below(items@, items@.len() as int),
{
    let mut r: Vec<Vec<usize>> = Vec::new();
    proof {
        assert(r.deep_view() =~= Seq::<Seq<usize>>::empty());
    }
    let mut count: usize = 0;
    while count < items.len()
        invariant
            count <= items.len(),
            r.deep_view() == subsets_below(items@, count as int),
        decreases items.len() - count,
    {
        let mut more = combinations_of(items, count);
        let ghost r0 = r.deep_view();
        let ghost m0 = more.deep_view();
        r.append(&mut more);
        proof {
            assert(r.deep_view() =~= r0 + m0);
        }
        count += 1;
    }
    r
}

/// The test that a subset passes to be a tube.
pub open spec fn tube_test(edges: Seq<[usize; 2]>) -> spec_fn(Seq<usize>) -> bool {
    |t: Seq<usize>| connected(edges, t)
}

/// The tubes of a graph: its connected proper subsets of vertices, in the
/// order of `subsets`.
pub open spec fn tubes_of(edges: Seq<[usize; 2]>, vs: Seq<usize>) -> Seq<Seq<usize>> {
    subsets_below(vs, vs.len() as int).filter(tube_test(edges))
}

/// An edge from `a` to `b` is listed, in this direction.
pub open spec fn has_edge(edges: Seq<[usize; 2]>, a: usize, b: usize) -> bool {
    exists|k: int| 0 <= k < edges.len() && edges[k]@[0] == a && edges[k]@[1] == b
}

/// The cycles of `n` vertices from `v0` that begin with `path`: extended one
/// edge at a time, each listed edge read forwards and then backwards, never
/// back to a vertex of the path, and kept when an edge closes them.
pub open spec fn cycles_from(edges: Seq<[usize; 2]>, n: int, v0: usize, path: Seq<usize>) -> Seq<
    Seq<usize>,
>
    decreases n - path.len(), 1int, 0int,
{
    if path.len() >= n {
        if path.len() > 0 && (has_edge(edges, path.last(), v0) || has_edge(edges, v0, path.last())) {
            seq![path]
        } else {
            seq![]
        }
    } else {
        edge_steps(edges, n, v0, path, edges.len() as int)
    }
}

/// The cycles that continue `path` along one of the first `m` edges.
pub open spec fn edge_steps(edges: Seq<[usize; 2]>, n: int, v0: usize, path: Seq<usize>, m: int) -> Seq<
    Seq<usize>,
>
    decreases n - path.len(), 0int, m,
{
    if m <= 0 || m > edges.len() || path.len() >= n || path.len() == 0 {
        seq![]
    } else {
        let e = edges[m - 1]@;
        edge_steps(edges, n, v0, path, m - 1) + (if e[0] == path.last() && !path.contains(e[1]) {
            cycles_from(edges, n, v0, path.push(e[1]))
        } else {
            seq![]
        }) + (if e[1] == path.last() && !path.contains(e[0]) {
            cycles_from(edges, n, v0, path.push(e[0]))
        } else {
            seq![]
        })
    }
}

/// The Hamiltonian cycles of a graph from its first vertex, each direction
/// and each parallel edge counted apart.
pub open spec fn graph_cycles(g: &Graph) -> Seq<Seq<usize>> {
    if g.vertices@.len() == 0 {
        seq![]
    } else {
        cycles_from(g.edges@, g.vertices@.len() as int, g.vertices@[0], seq![g.vertices@[0]])
    }
}

/// `p` starts a cycle from `v0` of `n` vertices: distinct vertices, the first
/// `v0`, each step along a listed edge, no more than `n`.
pub open spec fn is_partial_cycle(edges: Seq<[usize; 2]>, n: int, v0: usize, p: Seq<usize>) -> bool {
    &&& 0 < p.len() <= n
    &&& p[0] == v0
    &&& p.no_duplicates()
    &&& forall|i: int| 0 <= i < p.len() - 1 ==> linked(edges, #[trigger] p[i], p[i + 1])
}

/// `p` is a Hamiltonian cycle of `g` from its first vertex: as many distinct
/// vertices as `g` has, from the first one, each step along an edge, and an
/// edge from the last back to the first.
pub open spec fn is_graph_cycle(g: &Graph, p: Seq<usize>) -> bool {
    &&& g.vertices@.len() > 0
    &&& is_partial_cycle(g.edges@, g.vertices@.len() as int, g.vertices@[0], p)
    &&& p.len() == g.vertices@.len()
    &&& (has_edge(g.edges@, p.last(), g.vertices@[0]) || has_edge(g.edges@, g.vertices@[0], p.last()))
}

/// Edges `e` and `f` join the same two vertices.
pub open spec fn same_pair(e: [usize; 2], f: [usize; 2]) -> bool {
    (e@[0] == f@[0] && e@[1] == f@[1]) || (e@[0] == f@[1] && e@[1] == f@[0])
}

/// No two listed edges join the same two vertices.
pub open spec fn no_double_pairs(edges: Seq<[usize; 2]>) -> bool {
    forall|i: int, j: int| 0 <= i < j < edges.len() ==> !same_pair(#[trigger] edges[i], #[trigger] edges[j])
}

proof fn lemma_push_cycle(edges: Seq<[usize; 2]>, n: int, v0: usize, path: Seq<usize>, k: int, v: usize)
    requires
        is_partial_cycle(edges, n, v0, path),
        path.len() < n,
        0 <= k < edges.len(),
        (edges[k]@[0] == path.last() && edges[k]@[1] == v) || (edges[k]@[1] == path.last() && edges[k]@[0] == v),
        !path.contains(v),
    ensures
        is_partial_cycle(edges, n, v0, path.push(v)),
        path.push(v).subrange(0, path.len() as int) == path,
{
    let q = path.push(v);
    assert(linked(edges, path.last(), v));
    assert forall|i: int, j: int| 0 <= i < q.len() && 0 <= j < q.len() && i != j implies q[i] != q[j] by {
        if i == path.len() {
            assert(path.contains(q[j]));
        } else if j == path.len() {
            assert(path.contains(q[i]));
        }
    }
    assert forall|i: int| 0 <= i < q.len() - 1 implies linked(edges, #[trigger] q[i], q[i + 1]) by {
        if i < path.len() - 1 {
            assert(linked(edges, path[i], path[i + 1]));
        }
    }
    assert(q.subrange(0, path.len() as int) =~= path);
}

/// What an edge adds to the cycles that continue `path`: read forwards,
/// then backwards.
pub open spec fn edge_part(edges: Seq<[usize; 2]>, n: int, v0: usize, path: Seq<usize>, k: int) -> Seq<Seq<usize>> {
    let e = edges[k]@;
    (if e[0] == path.last() && !path.contains(e[1]) {
        cycles_from(edges, n, v0, path.push(e[1]))
    } else {
        seq![]
    }) + (if e[1] == path.last() && !path.contains(e[0]) {
        cycles_from(edges, n, v0, path.push(e[0]))
    } else {
        seq![]
    })
}

/// A cycle found from `path` continues it: it is complete, closes, and its
/// next vertex, when `path` is shorter, is the other end of a listed edge at
/// the last vertex of `path`.
pub open spec fn cycle_from_ok(edges: Seq<[usize; 2]>, n: int, v0: usize, path: Seq<usize>, q: Seq<usize>) -> bool {
    &&& is_partial_cycle(edges, n, v0, q)
    &&& q.len() == n
    &&& (has_edge(edges, q.last(), v0) || has_edge(edges, v0, q.last()))
    &&& q.subrange(0, path.len() as int) == path
}

proof fn lemma_cycles_sound(edges: Seq<[usize; 2]>, n: int, v0: usize, path: Seq<usize>)
    requires
        is_partial_cycle(edges, n, v0, path),
    ensures
        forall|k: int|
            0 <= k < cycles_from(edges, n, v0, path).len() ==> cycle_from_ok(
                edges,
                n,
                v0,
                path,
                #[trigger] cycles_from(edges, n, v0, path)[k],
            ),
    decreases n - path.len(), 1int, 0int,
{
    if path.len() >= n {
        assert(path.subrange(0, path.len() as int) =~= path);
        if has_edge(edges, path.last(), v0) || has_edge(edges, v0, path.last()) {
            assert(cycles_from(edges, n, v0, path) == seq![path]);
            assert(seq![path][0] == path);
        }
    } else {
        lemma_edge_steps_sound(edges, n, v0, path, edges.len() as int);
        assert(cycles_from(edges, n, v0, path) == edge_steps(edges, n, v0, path, edges.len() as int));
    }
}

proof fn lemma_branch_sound(edges: Seq<[usize; 2]>, n: int, v0: usize, path: Seq<usize>, k: int, v: usize)
    requires
        is_partial_cycle(edges, n, v0, path),
        path.len() < n,
        0 <= k < edges.len(),
        (edges[k]@[0] == path.last() && edges[k]@[1] == v) || (edges[k]@[1] == path.last() && edges[k]@[0] == v),
        !path.contains(v),
    ensures
        forall|j: int|
            0 <= j < cycles_from(edges, n, v0, path.push(v)).len() ==> {
                let q = #[trigger] cycles_from(edges, n, v0, path.push(v))[j];
                &&& cycle_from_ok(edges, n, v0, path, q)
                &&& q[path.len() as int] == v
            },
    decreases n - path.len(), 0int, 0int,
{
    lemma_push_cycle(edges, n, v0, path, k, v);
    lemma_cycles_sound(edges, n, v0, path.push(v));
    let b = cycles_from(edges, n, v0, path.push(v));
    assert forall|j: int| 0 <= j < b.len() implies {
        let q = #[trigger] b[j];
        &&& cycle_from_ok(edges, n, v0, path, q)
        &&& q[path.len() as int] == v
    } by {
        let q = b[j];
        assert(q.subrange(0, path.len() as int + 1) == path.push(v));
        assert(q.subrange(0, path.len() as int + 1)[path.len() as int] == q[path.len() as int]);
        assert(q.subrange(0, path.len() as int) =~= path.push(v).subrange(0, path.len() as int));
    }
}

proof fn lemma_edge_steps_sound(edges: Seq<[usize; 2]>, n: int, v0: usize, path: Seq<usize>, m: int)
    requires
        is_partial_cycle(edges, n, v0, path),
        path.len() < n,
    ensures
        forall|k: int|
            0 <= k < edge_steps(edges, n, v0, path, m).len() ==> {
                let q = #[trigger] edge_steps(edges, n, v0, path, m)[k];
                &&& cycle_from_ok(edges, n, v0, path, q)
                &&& exists|j: int|
                    0 <= j < m && ((edges[j]@[0] == path.last() && edges[j]@[1] == q[path.len() as int]) || (
                    edges[j]@[1] == path.last() && edges[j]@[0] == q[path.len() as int]))
            },
    decreases n - path.len(), 0int, m + 1,
{
    if !(m <= 0 || m > edges.len()) {
        lemma_edge_steps_sound(edges, n, v0, path, m - 1);
        let e = edges[m - 1]@;
        let a = edge_steps(edges, n, v0, path, m - 1);
        let f = if e[0] == path.last() && !path.contains(e[1]) {
            cycles_from(edges, n, v0, path.push(e[1]))
        } else {
            seq![]
        };
        let b = if e[1] == path.last() && !path.contains(e[0]) {
            cycles_from(edges, n, v0, path.push(e[0]))
        } else {
            seq![]
        };
        if e[0] == path.last() && !path.contains(e[1]) {
            lemma_branch_sound(edges, n, v0, path, m - 1, e[1]);
        }
        if e[1] == path.last() && !path.contains(e[0]) {
            lemma_branch_sound(edges, n, v0, path, m - 1, e[0]);
        }
        assert(edge_steps(edges, n, v0, path, m) == a + f + b);
        assert forall|k: int| 0 <= k < (a + f + b).len() implies {
            let q = #[trigger] (a + f + b)[k];
            &&& cycle_from_ok(edges, n, v0, path, q)
            &&& exists|j: int|
                0 <= j < m && ((edges[j]@[0] == path.last() && edges[j]@[1] == q[path.len() as int]) || (
                edges[j]@[1] == path.last() && edges[j]@[0] == q[path.len() as int]))
        } by {
            if k < a.len() {
                assert((a + f + b)[k] == a[k]);
                let j = choose|j: int|
                    0 <= j < m - 1 && ((edges[j]@[0] == path.last() && edges[j]@[1] == a[k][path.len() as int])
                        || (edges[j]@[1] == path.last() && edges[j]@[0] == a[k][path.len() as int]));
            } else if k < a.len() + f.len() {
                assert((a + f + b)[k] == f[k - a.len()]);
                assert(f[k - a.len()][path.len() as int] == e[1]);
            } else {
                assert((a + f + b)[k] == b[k - a.len() - f.len()]);
                assert(b[k - a.len() - f.len()][path.len() as int] == e[0]);
            }
        }
    }
}

proof fn lemma_edge_steps_grow(edges: Seq<[usize; 2]>, n: int, v0: usize, path: Seq<usize>, m: int, big: int, q: Seq<usize>)
    requires
        0 <= m <= big <= edges.len(),
        edge_steps(edges, n, v0, path, m).contains(q),
    ensures
        edge_steps(edges, n, v0, path, big).contains(q),
    decreases big - m,
{
    if m < big {
        lemma_edge_steps_grow(edges, n, v0, path, m, big - 1, q);
        let a = edge_steps(edges, n, v0, path, big - 1);
        let k = choose|k: int| 0 <= k < a.len() && a[k] == q;
        if path.len() < n && path.len() > 0 {
            let rest = edge_part(edges, n, v0, path, big - 1);
            assert(edge_steps(edges, n, v0, path, big) =~= a + rest);
            assert((a + rest)[k] == q);
        }
    }
}

proof fn lemma_cycles_complete(edges: Seq<[usize; 2]>, n: int, v0: usize, path: Seq<usize>, p: Seq<usize>)
    requires
        is_partial_cycle(edges, n, v0, path),
        is_partial_cycle(edges, n, v0, p),
        p.len() == n,
        has_edge(edges, p.last(), v0) || has_edge(edges, v0, p.last()),
        p.subrange(0, path.len() as int) == path,
    ensures
        cycles_from(edges, n, v0, path).contains(p),
    decreases n - path.len(),
{
    if path.len() >= n {
        assert(p =~= path);
        assert(seq![path][0] == p);
    } else {
        let v = p[path.len() as int];
        assert(path.last() == p[path.len() - 1]);
        assert(linked(edges, p[path.len() - 1], p[path.len() as int]));
        let k = choose|k: int|
            0 <= k < edges.len() && ((edges[k]@[0] == path.last() && edges[k]@[1] == v) || (edges[k]@[0] == v
                && edges[k]@[1] == path.last()));
        assert(!path.contains(v)) by {
            if path.contains(v) {
                let j = choose|j: int| 0 <= j < path.len() && path[j] == v;
                assert(p[j] == path[j]);
            }
        }
        lemma_push_cycle(edges, n, v0, path, k, v);
        assert(p.subrange(0, path.len() as int + 1) =~= path.push(v));
        lemma_cycles_complete(edges, n, v0, path.push(v), p);
        let c = cycles_from(edges, n, v0, path.push(v));
        let x = choose|x: int| 0 <= x < c.len() && c[x] == p;
        let a = edge_steps(edges, n, v0, path, k);
        let e = edges[k]@;
        let f = if e[0] == path.last() && !path.contains(e[1]) {
            cycles_from(edges, n, v0, path.push(e[1]))
        } else {
            seq![]
        };
        let b = if e[1] == path.last() && !path.contains(e[0]) {
            cycles_from(edges, n, v0, path.push(e[0]))
        } else {
            seq![]
        };
        assert(edge_steps(edges, n, v0, path, k + 1) == a + f + b);
        if e[0] == path.last() && e[1] == v {
            assert((a + f + b)[a.len() + x] == p);
        } else {
            assert((a + f + b)[a.len() + f.len() + x] == p);
        }
        assert(edge_steps(edges, n, v0, path, k + 1).contains(p));
        lemma_edge_steps_grow(edges, n, v0, path, k + 1, edges.len() as int, p);
    }
}

proof fn lemma_concat_distinct_seqs(a: Seq<Seq<usize>>, b: Seq<Seq<usize>>)
    requires
        a.no_duplicates(),
        b.no_duplicates(),
        forall|x: int, y: int| 0 <= x < a.len() && 0 <= y < b.len() ==> a[x] != b[y],
    ensures
        (a + b).no_duplicates(),
{
    assert forall|x: int, y: int| 0 <= x < (a + b).len() && 0 <= y < (a + b).len() && x != y implies (a
        + b)[x] != (a + b)[y] by {
        if x < a.len() && y < a.len() {
            assert((a + b)[x] == a[x] && (a + b)[y] == a[y]);
        } else if x >= a.len() && y >= a.len() {
            assert((a + b)[x] == b[x - a.len()] && (a + b)[y] == b[y - a.len()]);
        } else if x < a.len() {
            assert((a + b)[x] == a[x] && (a + b)[y] == b[y - a.len()]);
        } else {
            assert((a + b)[y] == a[y] && (a + b)[x] == b[x - a.len()]);
        }
    }
}

proof fn lemma_cycles_distinct(edges: Seq<[usize; 2]>, n: int, v0: usize, path: Seq<usize>)
    requires
        is_partial_cycle(edges, n, v0, path),
        no_double_pairs(edges),
    ensures
        cycles_from(edges, n, v0, path).no_duplicates(),
    decreases n - path.len(), 1int, 0int,
{
    if path.len() < n {
        lemma_edge_steps_distinct(edges, n, v0, path, edges.len() as int);
        assert(cycles_from(edges, n, v0, path) == edge_steps(edges, n, v0, path, edges.len() as int));
    }
}

proof fn lemma_edge_steps_distinct(edges: Seq<[usize; 2]>, n: int, v0: usize, path: Seq<usize>, m: int)
    requires
        is_partial_cycle(edges, n, v0, path),
        no_double_pairs(edges),
        path.len() < n,
    ensures
        edge_steps(edges, n, v0, path, m).no_duplicates(),
    decreases n - path.len(), 0int, m + 1,
{
    if !(m <= 0 || m > edges.len()) {
        lemma_edge_steps_distinct(edges, n, v0, path, m - 1);
        lemma_edge_steps_sound(edges, n, v0, path, m - 1);
        let e = edges[m - 1]@;
        let a = edge_steps(edges, n, v0, path, m - 1);
        let fwd = e[0] == path.last() && !path.contains(e[1]);
        let bwd = e[1] == path.last() && !path.contains(e[0]);
        let f = if fwd {
            cycles_from(edges, n, v0, path.push(e[1]))
        } else {
            seq![]
        };
        let b = if bwd {
            cycles_from(edges, n, v0, path.push(e[0]))
        } else {
            seq![]
        };
        if fwd {
            lemma_branch_sound(edges, n, v0, path, m - 1, e[1]);
            lemma_push_cycle(edges, n, v0, path, m - 1, e[1]);
            lemma_cycles_distinct(edges, n, v0, path.push(e[1]));
        }
        if bwd {
            lemma_branch_sound(edges, n, v0, path, m - 1, e[0]);
            lemma_push_cycle(edges, n, v0, path, m - 1, e[0]);
            lemma_cycles_distinct(edges, n, v0, path.push(e[0]));
        }
        assert(!(fwd && bwd));
        assert forall|x: int, y: int| 0 <= x < a.len() && 0 <= y < f.len() implies a[x] != f[y] by {
            let j = choose|j: int|
                0 <= j < m - 1 && ((edges[j]@[0] == path.last() && edges[j]@[1] == a[x][path.len() as int]) || (
                edges[j]@[1] == path.last() && edges[j]@[0] == a[x][path.len() as int]));
            assert(f[y][path.len() as int] == e[1]);
            if a[x] == f[y] {
                assert(same_pair(edges[j], edges[m - 1]));
            }
        }
        lemma_concat_distinct_seqs(a, f);
        assert forall|x: int, y: int| 0 <= x < (a + f).len() && 0 <= y < b.len() implies (a + f)[x] != b[y] by {
            assert(b[y][path.len() as int] == e[0]);
            if x < a.len() {
                assert((a + f)[x] == a[x]);
                let j = choose|j: int|
                    0 <= j < m - 1 && ((edges[j]@[0] == path.last() && edges[j]@[1] == a[x][path.len() as int])
                        || (edges[j]@[1] == path.last() && edges[j]@[0] == a[x][path.len() as int]));
                if a[x] == b[y] {
                    assert(same_pair(edges[j], edges[m - 1]));
                }
            } else {
                assert((a + f)[x] == f[x - a.len()]);
            }
        }
        lemma_concat_distinct_seqs(a + f, b);
        assert(edge_steps(edges, n, v0, path, m) == a + f + b);
    }
}

/// The cycles that `ham_cycles` finds are exactly the Hamiltonian cycles of
/// `g` from its first vertex; when no two listed edges join the same two
/// vertices, each comes once.
pub proof fn lemma_graph_cycles_exact(g: &Graph, p: Seq<usize>)
    ensures
        graph_cycles(g).contains(p) <==> is_graph_cycle(g, p),
        no_double_pairs(g.edges@) ==> graph_cycles(g).no_duplicates(),
{
    if g.vertices@.len() > 0 {
        let v0 = g.vertices@[0];
        let n = g.vertices@.len() as int;
        let start = seq![v0];
        assert(is_partial_cycle(g.edges@, n, v0, start));
        lemma_cycles_sound(g.edges@, n, v0, start);
        if graph_cycles(g).contains(p) {
            let k = choose|k: int| 0 <= k < graph_cycles(g).len() && graph_cycles(g)[k] == p;
            assert(cycle_from_ok(g.edges@, n, v0, start, p));
        }
        if is_graph_cycle(g, p) {
            assert(p.subrange(0, 1) =~= start);
            lemma_cycles_complete(g.edges@, n, v0, start, p);
        }
        if no_double_pairs(g.edges@) {
            lemma_cycles_distinct(g.edges@, n, v0, start);
        }
    }
}

fn edge_listed(edges: &Vec<[usize; 2]>, a: usize, b: usize) -> (r: bool)
    ensures
        r == has_edge(edges@, a, b),
{
    let mut k: usize = 0;
    while k < edges.len()
        invariant
            k <= edges.len(),
            forall|j: int| 0 <= j < k ==> !(#[trigger] edges@[j]@[0] == a && edges@[j]@[1] == b),
        decreases edges.len() - k,
    {
        let e = edges[k];
        if e[0] == a && e[1] == b {
            return true;
        }
        k += 1;
    }
    false
}

fn grow_cycle(
    g: &Graph,
    n: usize,
    v0: usize,
    path: &mut Vec<usize>,
    next: usize,
    out: &mut Vec<Vec<usize>>,
)
    requires
        old(path).len() < n,
        !old(path)@.contains(next),
    ensures
        final(path)@ == old(path)@,
        final(out).deep_view() == old(out).deep_view() + cycles_from(
            g.edges@,
            n as int,
            v0,
            old(path)@.push(next),
        ),
    decreases n - old(path).len(), 0int,
{
    path.push(next);
    cycle_paths(g, n, v0, path, out);
    path.pop();
    proof {
        assert(path@ =~= old(path)@);
    }
}

fn cycle_paths(g: &Graph, n: usize, v0: usize, path: &mut Vec<usize>, out: &mut Vec<Vec<usize>>)
    requires
        old(path).len() > 0,
        old(path).len() <= n,
    ensures
        final(path)@ == old(path)@,
        final(out).deep_view() == old(out).deep_view() + cycles_from(g.edges@, n as int, v0, old(path)@),
    decreases n - old(path).len(), 1int,
{
    let ghost p0 = path@;
    let ghost out0 = out.deep_view();
    let ghost es = g.edges@;
    let last = path[path.len() - 1];
    if path.len() == n {
        if edge_listed(&g.edges, last, v0) || edge_listed(&g.edges, v0, last) {
            let snapshot = path.clone();
            proof {
                assert(snapshot@ =~= p0);
            }
            out.push(snapshot);
            proof {
                crate::gaps::lemma_rows(*out);
                assert(out.deep_view() =~= out0 + seq![p0]);
            }
        } else {
            proof {
                assert(out.deep_view() =~= out0 + Seq::<Seq<usize>>::empty());
            }
        }
        return;
    }
    let mut m: usize = 0;
    while m < g.edges.len()
        invariant
            es == g.edges@,
            p0.len() > 0,
            p0.len() < n,
            last == p0.last(),
            path@ == p0,
            p0 == old(path)@,
            m <= es.len(),
            out.deep_view() == out0 + edge_steps(es, n as int, v0, p0, m as int),
        decreases es.len() - m,
    {
        let e = g.edges[m];
        let a = e[0];
        let b = e[1];
        let ghost before = out.deep_view();
        proof {
            assert(e == es[m as int] && a == e@[0] && b == e@[1]);
        }
        if a == last && !contains(path, b) {
            grow_cycle(g, n, v0, path, b, out);
        }
        let ghost mid = out.deep_view();
        if b == last && !contains(path, a) {
            grow_cycle(g, n, v0, path, a, out);
        }
        proof {
            let x = edge_steps(es, n as int, v0, p0, m as int);
            let c1 = if a == p0.last() && !p0.contains(b) {
                cycles_from(es, n as int, v0, p0.push(b))
            } else {
                seq![]
            };
            let c2 = if b == p0.last() && !p0.contains(a) {
                cycles_from(es, n as int, v0, p0.push(a))
            } else {
                seq![]
            };
            assert(mid =~= before + c1);
            assert(out.deep_view() =~= mid + c2);
            assert(out0 + (x + c1 + c2) =~= out0 + x + c1 + c2);
        }
        m += 1;
    }
}

/// Tube `t1` lies directly below tube `t2`: one element shorter, and every
/// element of `t1` is in `t2`.
pub open spec fn covers_tube(t1: Seq<usize>, t2: Seq<usize>) -> bool {
    t1.len() + 1 == t2.len() && forall|i: int| 0 <= i < t1.len() ==> t2.contains(#[trigger] t1[i])
}

/// Whether `tube1` lies directly below `tube2`.
pub fn is_above(tube1: &Vec<usize>, tube2: &Vec<usize>) -> (r: bool)
    ensures
        r == covers_tube(tube1@, tube2@),
{
    if tube1.len() >= tube2.len() || tube1.len() + 1 != tube2.len() {
        return false;
    }
    let mut i: usize = 0;
    while i < tube1.len()
        invariant
            i <= tube1.len(),
            forall|j: int| 0 <= j < i ==> tube2@.contains(#[trigger] tube1@[j]),
        decreases tube1.len() - i,
    {
        if !contains(tube2, tube1[i]) {
            return false;
        }
        i += 1;
    }
    true
}

impl Graph {
    /// Computes the tubes, unless they are there already.
    pub fn find_tubes(&mut self)
        ensures
            final(self).vertices == old(self).vertices,
            final(self).edges == old(self).edges,
            old(self).tubes is Some ==> final(self).tubes == old(self).tubes,
            old(self).tubes is None ==> final(self).tubes is Some && final(self).tubes->Some_0.deep_view()
                == tubes_of(old(self).edges@, old(self).vertices@),
    {
        match self.tubes {
            Some(_) => {
                return;
            },
            None => {},
        }
        let all = subsets(&self.vertices);
        let ghost sub = all.deep_view();
        let ghost test = tube_test(self.edges@);
        proof {
            crate::gaps::lemma_rows(all);
        }
        let mut tubes: Vec<Vec<usize>> = Vec::new();
        proof {
            assert(tubes.deep_view() =~= sub.subrange(0, 0).filter(test)) by {
                reveal(Seq::filter);
            }
        }
        let mut i: usize = 0;
        while i < all.len()
            invariant
                sub == all.deep_view(),
                sub.len() == all@.len(),
                forall|j: int| 0 <= j < all@.len() ==> #[trigger] sub[j] == all@[j]@,
                test == tube_test(self.edges@),
                i <= all.len(),
                tubes.deep_view() == sub.subrange(0, i as int).filter(test),
            decreases all.len() - i,
        {
            proof {
                assert(sub[i as int] == all@[i as int]@);
                assert(sub.subrange(0, i + 1) =~= sub.subrange(0, i as int).push(sub[i as int]));
                sub.subrange(0, i as int).lemma_filter_push(sub[i as int], test);
            }
            if self.is_connected(&all[i]) {
                let ghost t0 = tubes.deep_view();
                let subset = all[i].clone();
                proof {
                    assert(subset@ =~= all@[i as int]@);
                }
                tubes.push(subset);
                proof {
                    crate::gaps::lemma_rows(tubes);
                    assert(tubes.deep_view() =~= t0.push(sub[i as int]));
                }
            }
            i += 1;
        }
        proof {
            assert(sub.subrange(0, sub.len() as int) =~= sub);
        }
        self.tubes = Some(tubes);
    }

    /// The Hamiltonian cycles from the first vertex: paths through every
    /// vertex along the edges, read both ways, closed by an edge back to the
    /// first vertex; none when there is no vertex.
    pub fn ham_cycles(&self) -> (r: Vec<Vec<usize>>)
        ensures
            r.deep_view() == graph_cycles(self),
            forall|p: Seq<usize>| r.deep_view().contains(p) <==> #[trigger] is_graph_cycle(self, p),
            no_double_pairs(self.edges@) ==> r.deep_view().no_duplicates(),
    {
        proof {
            assert forall|p: Seq<usize>| graph_cycles(self).contains(p) <==> #[trigger] is_graph_cycle(self, p) by {
                lemma_graph_cycles_exact(self, p);
            }
            lemma_graph_cycles_exact(self, seq![]);
        }
        let mut out: Vec<Vec<usize>> = Vec::new();
        proof {
            assert(out.deep_view() =~= Seq::<Seq<usize>>::empty());
        }
        if self.vertices.len() == 0 {
            return out;
        }
        let v0 = self.vertices[0];
        let mut path: Vec<usize> = Vec::new();
        path.push(v0);
        proof {
            assert(path@ =~= seq![v0]);
        }
        cycle_paths(self, self.vertices.len(), v0, &mut path, &mut out);
        proof {
            assert(out.deep_view() =~= Seq::<Seq<usize>>::empty() + graph_cycles(self));
        }
        out
    }
}

/// The decimal digit `d`.
pub open spec fn digit_char(d: nat) -> char {
    seq!['0', '1', '2', '3', '4', '5', '6', '7', '8', '9'][d as int]
}

/// `n` in decimal, without leading zeros.
pub open spec fn decimal_text(n: nat) -> Seq<char>
    decreases n,
{
    if n < 10 {
        seq![digit_char(n)]
    } else {
        decimal_text(n / 10).push(digit_char(n % 10))
    }
}

/// The ids of `s` in decimal, separated by `", "`.
pub open spec fn joined_ids(s: Seq<usize>) -> Seq<char>
    decreases s.len(),
{
    if s.len() == 0 {
        seq![]
    } else if s.len() == 1 {
        decimal_text(s[0] as nat)
    } else {
        joined_ids(s.drop_last()) + seq![',', ' '] + decimal_text(s.last() as nat)
    }
}

/// The text that std's `Debug` writes for a `Vec<usize>` holding `s`: its
/// ids in decimal, separated by `", "`, between `'['` and `']'`.
pub open spec fn debug_text(s: Seq<usize>) -> Seq<char> {
    seq!['['] + joined_ids(s) + seq![']']
}

/// Relies on std's `Debug` for `Vec<usize>`, through `format!`: the ids in
/// decimal, separated by `", "`, between brackets.
#[verifier::external_body]
fn tube_label(t: &Vec<usize>) -> (r: String)
    ensures
        r@ == debug_text(t@),
{
    format!("{:?}", t)
}

/// The rank of the face of a tube: one less than its size.
pub open spec fn tube_rank(t: Seq<usize>) -> usize {
    if t.len() > 0 {
        (t.len() - 1) as usize
    } else {
        0
    }
}

/// The ids below `m` of the tubes directly above `t`, in increasing order.
pub open spec fn above_ids(tubes: Seq<Seq<usize>>, t: Seq<usize>, m: int) -> Seq<usize>
    decreases m,
{
    if m <= 0 {
        seq![]
    } else if covers_tube(t, tubes[m - 1]) {
        above_ids(tubes, t, m - 1).push((m - 1) as usize)
    } else {
        above_ids(tubes, t, m - 1)
    }
}

/// The ids below `m` of the tubes directly below `t`, in increasing order.
pub open spec fn below_ids(tubes: Seq<Seq<usize>>, t: Seq<usize>, m: int) -> Seq<usize>
    decreases m,
{
    if m <= 0 {
        seq![]
    } else if covers_tube(tubes[m - 1], t) {
        below_ids(tubes, t, m - 1).push((m - 1) as usize)
    } else {
        below_ids(tubes, t, m - 1)
    }
}

/// The ids below `m` of the tubes that hold the single vertex `v`.
pub open spec fn singleton_ids(tubes: Seq<Seq<usize>>, v: usize, m: int) -> Seq<usize>
    decreases m,
{
    if m <= 0 {
        seq![]
    } else if tubes[m - 1] == seq![v] {
        singleton_ids(tubes, v, m - 1).push((m - 1) as usize)
    } else {
        singleton_ids(tubes, v, m - 1)
    }
}

/// The first `k` vertices of the cycle `c`, each replaced by the ids of its
/// single-vertex tubes.
pub open spec fn cycle_ids(tubes: Seq<Seq<usize>>, c: Seq<usize>, k: int) -> Seq<usize>
    decreases k,
{
    if k <= 0 {
        seq![]
    } else {
        cycle_ids(tubes, c, k - 1) + singleton_ids(tubes, c[k - 1], tubes.len() as int)
    }
}

/// `l` is the face lattice of the tubes `tubes`: face `i` is tube `i`, with
/// its debug text as label, one less than its size as rank, the tubes
/// directly above and below it as upset and downset; its seeds are the
/// cycles `cycles` written over the single-vertex tubes.
pub open spec fn is_tube_lattice(l: &Lattice, tubes: Seq<Seq<usize>>, cycles: Seq<Seq<usize>>) -> bool {
    &&& l.wf()
    &&& l.faces@.len() == tubes.len()
    &&& forall|i: int|
        0 <= i < tubes.len() ==> {
            let f = #[trigger] l.faces@[i];
            &&& f.label@ == debug_text(tubes[i])
            &&& f.dim == tube_rank(tubes[i])
            &&& f.upset@ == above_ids(tubes, tubes[i], tubes.len() as int)
            &&& f.downset@ == below_ids(tubes, tubes[i], tubes.len() as int)
        }
    &&& l.ham_cycles.deep_view().len() == cycles.len()
    &&& forall|c: int|
        0 <= c < cycles.len() ==> #[trigger] l.ham_cycles.deep_view()[c] == cycle_ids(
            tubes,
            cycles[c],
            cycles[c].len() as int,
        )
}

fn ids_above(tubes: &Vec<Vec<usize>>, t: &Vec<usize>) -> (r: Vec<usize>)
    ensures
        r@ == above_ids(tubes.deep_view(), t@, tubes@.len() as int),
{
    proof {
        crate::gaps::lemma_rows(*tubes);
    }
    let mut r: Vec<usize> = Vec::new();
    let mut j: usize = 0;
    while j < tubes.len()
        invariant
            j <= tubes.len(),
            tubes.deep_view().len() == tubes@.len(),
            forall|k: int| 0 <= k < tubes@.len() ==> #[trigger] tubes.deep_view()[k] == tubes@[k]@,
            r@ == above_ids(tubes.deep_view(), t@, j as int),
        decreases tubes.len() - j,
    {
        proof {
            assert(tubes.deep_view()[j as int] == tubes@[j as int]@);
        }
        if is_above(t, &tubes[j]) {
            r.push(j);
        }
        j += 1;
    }
    r
}

fn ids_below(tubes: &Vec<Vec<usize>>, t: &Vec<usize>) -> (r: Vec<usize>)
    ensures
        r@ == below_ids(tubes.deep_view(), t@, tubes@.len() as int),
{
    proof {
        crate::gaps::lemma_rows(*tubes);
    }
    let mut r: Vec<usize> = Vec::new();
    let mut j: usize = 0;
    while j < tubes.len()
        invariant
            j <= tubes.len(),
            tubes.deep_view().len() == tubes@.len(),
            forall|k: int| 0 <= k < tubes@.len() ==> #[trigger] tubes.deep_view()[k] == tubes@[k]@,
            r@ == below_ids(tubes.deep_view(), t@, j as int),
        decreases tubes.len() - j,
    {
        proof {
            assert(tubes.deep_view()[j as int] == tubes@[j as int]@);
        }
        if is_above(&tubes[j], t) {
            r.push(j);
        }
        j += 1;
    }
    r
}

fn is_singleton(t: &Vec<usize>, v: usize) -> (r: bool)
    ensures
        r == (t@ == seq![v]),
{
    if t.len() == 1 && t[0] == v {
        proof {
            assert(t@ =~= seq![v]);
        }
        true
    } else {
        false
    }
}

fn cycle_to_faces(tubes: &Vec<Vec<usize>>, c: &Vec<usize>) -> (r: Vec<usize>)
    ensures
        r@ == cycle_ids(tubes.deep_view(), c@, c@.len() as int),
{
    proof {
        crate::gaps::lemma_rows(*tubes);
    }
    let ghost ts = tubes.deep_view();
    let mut r: Vec<usize> = Vec::new();
    let mut k: usize = 0;
    while k < c.len()
        invariant
            k <= c.len(),
            ts == tubes.deep_view(),
            ts.len() == tubes@.len(),
            forall|q: int| 0 <= q < tubes@.len() ==> #[trigger] ts[q] == tubes@[q]@,
            r@ == cycle_ids(ts, c@, k as int),
        decreases c.len() - k,
    {
        let v = c[k];
        let ghost r0 = r@;
        let mut j: usize = 0;
        while j < tubes.len()
            invariant
                j <= tubes.len(),
                ts == tubes.deep_view(),
                ts.len() == tubes@.len(),
                forall|q: int| 0 <= q < tubes@.len() ==> #[trigger] ts[q] == tubes@[q]@,
                r@ == r0 + singleton_ids(ts, v, j as int),
            decreases tubes.len() - j,
        {
            proof {
                assert(ts[j as int] == tubes@[j as int]@);
            }
            if is_singleton(&tubes[j], v) {
                r.push(j);
                proof {
                    assert(r@ =~= r0 + singleton_ids(ts, v, j + 1));
                }
            }
            j += 1;
        }
        k += 1;
    }
    r
}

/// The face lattice of the tubes of `g`: the tubes are computed first unless
/// `g` has them; the seeds are the Hamiltonian cycles of `g` over its
/// single-vertex tubes.
pub fn lattice_from_graph(g: &mut Graph) -> (l: Lattice)
    ensures
        final(g).vertices == old(g).vertices,
        final(g).edges == old(g).edges,
        old(g).tubes is Some ==> final(g).tubes == old(g).tubes,
        old(g).tubes is None ==> final(g).tubes is Some && final(g).tubes->Some_0.deep_view()
            == tubes_of(old(g).edges@, old(g).vertices@),
        final(g).tubes is Some,
        is_tube_lattice(&l, final(g).tubes->Some_0.deep_view(), graph_cycles(old(g))),
{
    g.find_tubes();
    let tubes: Vec<Vec<usize>> = match &g.tubes {
        Some(t) => t.clone(),
        None => Vec::new(),
    };
    let ghost ts = tubes.deep_view();
    proof {
        crate::gaps::lemma_rows(tubes);
    }
    let cycles = g.ham_cycles();
    let mut faces: Vec<Face> = Vec::new();
    let mut i: usize = 0;
    while i < tubes.len()
        invariant
            i <= tubes.len(),
            ts == tubes.deep_view(),
            ts.len() == tubes@.len(),
            forall|q: int| 0 <= q < tubes@.len() ==> #[trigger] ts[q] == tubes@[q]@,
            faces@.len() == i,
            forall|q: int| 0 <= q < i ==> #[trigger] faces@[q].dim < usize::MAX,
            forall|q: int|
                0 <= q < i ==> {
                    let f = #[trigger] faces@[q];
                    &&& f.label@ == debug_text(ts[q])
                    &&& f.dim == tube_rank(ts[q])
                    &&& f.upset@ == above_ids(ts, ts[q], ts.len() as int)
                    &&& f.downset@ == below_ids(ts, ts[q], ts.len() as int)
                },
        decreases tubes.len() - i,
    {
        let t = &tubes[i];
        proof {
            assert(ts[i as int] == t@);
        }
        let dim = if t.len() > 0 {
            t.len() - 1
        } else {
            0
        };
        let face = Face { label: tube_label(t), dim, upset: ids_above(&tubes, t), downset: ids_below(&tubes, t) };
        faces.push(face);
        i += 1;
    }
    let mut seeds: Vec<Vec<usize>> = Vec::new();
    let ghost cs = cycles.deep_view();
    proof {
        crate::gaps::lemma_rows(cycles);
    }
    let mut k: usize = 0;
    while k < cycles.len()
        invariant
            k <= cycles.len(),
            ts == tubes.deep_view(),
            cs == cycles.deep_view(),
            cs.len() == cycles@.len(),
            forall|q: int| 0 <= q < cycles@.len() ==> #[trigger] cs[q] == cycles@[q]@,
            seeds.deep_view().len() == k,
            forall|q: int|
                0 <= q < k ==> #[trigger] seeds.deep_view()[q] == cycle_ids(ts, cs[q], cs[q].len() as int),
        decreases cycles.len() - k,
    {
        let ghost s0 = seeds;
        let ids = cycle_to_faces(&tubes, &cycles[k]);
        seeds.push(ids);
        proof {
            assert(cs[k as int] == cycles@[k as int]@);
            crate::gaps::lemma_rows(seeds);
            crate::gaps::lemma_rows(s0);
            assert forall|q: int|
                0 <= q < k + 1 implies #[trigger] seeds.deep_view()[q] == cycle_ids(ts, cs[q], cs[q].len() as int) by {
                if q < k {
                    assert(seeds@[q] == s0@[q]);
                    assert(s0.deep_view()[q] == s0@[q]@);
                }
            }
        }
        k += 1;
    }
    proof {
        lemma_max_rank_bound(faces@, faces@.len() as int, (usize::MAX - 1) as nat);
    }
    lattice_from_faces(faces, seeds)
}

/// The test that an edge leaves vertex 0, as listed.
pub open spec fn leaves_zero() -> spec_fn([usize; 2]) -> bool {
    |e: [usize; 2]| e@[0] == 0
}

/// Whether exactly one listed edge has vertex 0 as its first end.
pub fn single_edge_from_zero(g: &Graph) -> (r: bool)
    ensures
        r == (g.edges@.filter(leaves_zero()).len() == 1),
{
    let ghost es = g.edges@;
    let mut count: usize = 0;
    let mut k: usize = 0;
    while k < g.edges.len()
        invariant
            es == g.edges@,
            k <= es.len(),
            count == es.subrange(0, k as int).filter(leaves_zero()).len(),
            count <= k,
        decreases es.len() - k,
    {
        let e = g.edges[k];
        proof {
            assert(es.subrange(0, k + 1) =~= es.subrange(0, k as int).push(e));
            es.subrange(0, k as int).lemma_filter_push(e, leaves_zero());
        }
        if e[0] == 0 {
            count += 1;
        }
        k += 1;
    }
    proof {
        assert(es.subrange(0, es.len() as int) =~= es);
    }
    count == 1
}

} // verus!
