//! Seed orderings: the Hamiltonian paths, or cycles, of the graph on the
//! rank-0 faces in which two faces are adjacent when they have a bridge.

use vstd::prelude::*;
use crate::interval::contains;
use crate::lattice::Lattice;

verus! {

/// Faces `a` and `b` are adjacent: the bridge table has an entry for them.
pub open spec fn adjacent(l: &Lattice, a: usize, b: usize) -> bool {
    l.bridge_at(a as int, b as int) is Some
}

/// A complete ordering is yielded: as a path when its first id is at most
/// its last (one of each reversed pair); as a cycle when it closes up (a
/// single node closes trivially) and its second id is at most its last (one
/// of each pair of directions).
pub open spec fn accepts(l: &Lattice, path: Seq<usize>, cyclic: bool) -> bool {
    if cyclic {
        (path.len() == 1 || adjacent(l, path.last(), path[0])) && (path.len() < 2 || path[1]
            <= path.last())
    } else {
        path[0] <= path.last()
    }
}

/// The accepted orderings of `nodes` that begin with `path`, found depth
/// first, trying the next node in the order of `nodes`.
pub open spec fn orderings_from(l: &Lattice, nodes: Seq<usize>, path: Seq<usize>, cyclic: bool) -> Seq<
    Seq<usize>,
>
    decreases nodes.len() - path.len(), 1int, 0int,
{
    if path.len() >= nodes.len() {
        if path.len() > 0 && accepts(l, path, cyclic) {
            seq![path]
        } else {
            seq![]
        }
    } else {
        steps(l, nodes, path, cyclic, nodes.len() as int)
    }
}

/// The accepted orderings that continue `path` with one of the first `m`
/// nodes.
pub open spec fn steps(l: &Lattice, nodes: Seq<usize>, path: Seq<usize>, cyclic: bool, m: int) -> Seq<
    Seq<usize>,
>
    decreases nodes.len() - path.len(), 0int, m,
{
    if m <= 0 || m > nodes.len() || path.len() >= nodes.len() {
        seq![]
    } else {
        let v = nodes[m - 1];
        steps(l, nodes, path, cyclic, m - 1) + if path.len() > 0 && !path.contains(v) && adjacent(
            l,
            path.last(),
            v,
        ) {
            orderings_from(l, nodes, path.push(v), cyclic)
        } else {
            seq![]
        }
    }
}

/// The accepted orderings that start at one of the first `m` nodes.
pub open spec fn from_starts(l: &Lattice, nodes: Seq<usize>, cyclic: bool, m: int) -> Seq<Seq<usize>>
    decreases m,
{
    if m <= 0 || m > nodes.len() {
        seq![]
    } else {
        from_starts(l, nodes, cyclic, m - 1) + orderings_from(l, nodes, seq![nodes[m - 1]], cyclic)
    }
}

/// The seed orderings of `l`: over its rank-0 faces, every Hamiltonian path
/// with its first id at most its last; when `cyclic`, every Hamiltonian cycle
/// from the first rank-0 face, one direction of each.
pub open spec fn seed_orderings(l: &Lattice, cyclic: bool) -> Seq<Seq<usize>> {
    let nodes = l.level(0);
    if cyclic {
        from_starts(l, nodes, cyclic, if nodes.len() > 0 {
            1
        } else {
            0
        })
    } else {
        from_starts(l, nodes, cyclic, nodes.len() as int)
    }
}

/// `p` starts a Hamiltonian ordering of `nodes`: distinct nodes of
/// `nodes`, each step between adjacent faces, no longer than `nodes`.
pub open spec fn is_partial_ordering(l: &Lattice, nodes: Seq<usize>, p: Seq<usize>) -> bool {
    &&& 0 < p.len() <= nodes.len()
    &&& p.no_duplicates()
    &&& forall|i: int| 0 <= i < p.len() ==> nodes.contains(#[trigger] p[i])
    &&& forall|i: int| 0 <= i < p.len() - 1 ==> adjacent(l, #[trigger] p[i], p[i + 1])
}

/// `p` is a seed ordering of `l`: a Hamiltonian ordering of the rank-0
/// faces that the convention accepts, from the first rank-0 face when
/// `cyclic`.
pub open spec fn is_seed(l: &Lattice, p: Seq<usize>, cyclic: bool) -> bool {
    let nodes = l.level(0);
    &&& is_partial_ordering(l, nodes, p)
    &&& p.len() == nodes.len()
    &&& accepts(l, p, cyclic)
    &&& cyclic ==> p[0] == nodes[0]
}

proof fn lemma_push_ordering(l: &Lattice, nodes: Seq<usize>, path: Seq<usize>, v: usize)
    requires
        is_partial_ordering(l, nodes, path),
        path.len() < nodes.len(),
        nodes.contains(v),
        !path.contains(v),
        adjacent(l, path.last(), v),
    ensures
        is_partial_ordering(l, nodes, path.push(v)),
        path.push(v).subrange(0, path.len() as int) == path,
{
    let q = path.push(v);
    assert forall|i: int, j: int| 0 <= i < q.len() && 0 <= j < q.len() && i != j implies q[i] != q[j] by {
        if i == path.len() {
            assert(path.contains(q[j]));
        } else if j == path.len() {
            assert(path.contains(q[i]));
        }
    }
    assert forall|i: int| 0 <= i < q.len() implies nodes.contains(#[trigger] q[i]) by {
        if i < path.len() {
            assert(nodes.contains(path[i]));
        }
    }
    assert forall|i: int| 0 <= i < q.len() - 1 implies adjacent(l, #[trigger] q[i], q[i + 1]) by {
        if i < path.len() - 1 {
            assert(adjacent(l, path[i], path[i + 1]));
        }
    }
    assert(q.subrange(0, path.len() as int) =~= path);
}

proof fn lemma_orderings_sound(l: &Lattice, nodes: Seq<usize>, path: Seq<usize>, cyclic: bool)
    requires
        is_partial_ordering(l, nodes, path),
    ensures
        forall|k: int|
            0 <= k < orderings_from(l, nodes, path, cyclic).len() ==> {
                let q = #[trigger] orderings_from(l, nodes, path, cyclic)[k];
                &&& is_partial_ordering(l, nodes, q)
                &&& q.len() == nodes.len()
                &&& accepts(l, q, cyclic)
                &&& q.subrange(0, path.len() as int) == path
            },
    decreases nodes.len() - path.len(), 1int, 0int,
{
    if path.len() >= nodes.len() {
        assert(path.subrange(0, path.len() as int) =~= path);
        if accepts(l, path, cyclic) {
            assert(orderings_from(l, nodes, path, cyclic) == seq![path]);
            assert(seq![path][0] == path);
        } else {
            assert(orderings_from(l, nodes, path, cyclic).len() == 0);
        }
    } else {
        lemma_steps_sound(l, nodes, path, cyclic, nodes.len() as int);
        assert(orderings_from(l, nodes, path, cyclic) == steps(l, nodes, path, cyclic, nodes.len() as int));
    }
}

proof fn lemma_steps_sound(l: &Lattice, nodes: Seq<usize>, path: Seq<usize>, cyclic: bool, m: int)
    requires
        is_partial_ordering(l, nodes, path),
        path.len() < nodes.len(),
    ensures
        forall|k: int|
            0 <= k < steps(l, nodes, path, cyclic, m).len() ==> {
                let q = #[trigger] steps(l, nodes, path, cyclic, m)[k];
                &&& is_partial_ordering(l, nodes, q)
                &&& q.len() == nodes.len()
                &&& accepts(l, q, cyclic)
                &&& q.subrange(0, path.len() as int) == path
            },
    decreases nodes.len() - path.len(), 0int, m,
{
    if !(m <= 0 || m > nodes.len()) {
        lemma_steps_sound(l, nodes, path, cyclic, m - 1);
        let v = nodes[m - 1];
        let a = steps(l, nodes, path, cyclic, m - 1);
        if !path.contains(v) && adjacent(l, path.last(), v) {
            lemma_push_ordering(l, nodes, path, v);
            lemma_orderings_sound(l, nodes, path.push(v), cyclic);
            let b = orderings_from(l, nodes, path.push(v), cyclic);
            assert forall|k: int| 0 <= k < (a + b).len() implies {
                let q = #[trigger] (a + b)[k];
                &&& is_partial_ordering(l, nodes, q)
                &&& q.len() == nodes.len()
                &&& accepts(l, q, cyclic)
                &&& q.subrange(0, path.len() as int) == path
            } by {
                if k >= a.len() {
                    let q = b[k - a.len()];
                    assert((a + b)[k] == q);
                    assert(q.subrange(0, path.len() as int + 1) == path.push(v));
                    assert(q.subrange(0, path.len() as int) =~= path.push(v).subrange(0, path.len() as int));
                } else {
                    assert((a + b)[k] == a[k]);
                }
            }
        } else {
            assert(a + seq![] =~= a);
        }
    }
}

proof fn lemma_steps_grow(l: &Lattice, nodes: Seq<usize>, path: Seq<usize>, cyclic: bool, m: int, big: int, q: Seq<usize>)
    requires
        m <= big <= nodes.len(),
        steps(l, nodes, path, cyclic, m).contains(q),
    ensures
        steps(l, nodes, path, cyclic, big).contains(q),
    decreases big - m,
{
    if m < big {
        lemma_steps_grow(l, nodes, path, cyclic, m, big - 1, q);
        let a = steps(l, nodes, path, cyclic, big - 1);
        let k = choose|k: int| 0 <= k < a.len() && a[k] == q;
        if path.len() < nodes.len() && big > 0 {
            let v = nodes[big - 1];
            let b = if path.len() > 0 && !path.contains(v) && adjacent(l, path.last(), v) {
                orderings_from(l, nodes, path.push(v), cyclic)
            } else {
                seq![]
            };
            assert((a + b)[k] == q);
        }
    }
}

proof fn lemma_orderings_complete(l: &Lattice, nodes: Seq<usize>, path: Seq<usize>, cyclic: bool, p: Seq<usize>)
    requires
        is_partial_ordering(l, nodes, path),
        is_partial_ordering(l, nodes, p),
        p.len() == nodes.len(),
        accepts(l, p, cyclic),
        p.subrange(0, path.len() as int) == path,
    ensures
        orderings_from(l, nodes, path, cyclic).contains(p),
    decreases nodes.len() - path.len(),
{
    if path.len() >= nodes.len() {
        assert(p =~= path);
        assert(seq![path][0] == p);
    } else {
        let v = p[path.len() as int];
        assert(nodes.contains(v));
        let m = choose|m: int| 0 <= m < nodes.len() && nodes[m] == v;
        assert(!path.contains(v)) by {
            if path.contains(v) {
                let j = choose|j: int| 0 <= j < path.len() && path[j] == v;
                assert(p[j] == path[j]);
            }
        }
        assert(path.last() == p[path.len() - 1]);
        assert(adjacent(l, p[path.len() - 1], p[path.len() as int]));
        lemma_push_ordering(l, nodes, path, v);
        assert(p.subrange(0, path.len() as int + 1) =~= path.push(v));
        lemma_orderings_complete(l, nodes, path.push(v), cyclic, p);
        let a = steps(l, nodes, path, cyclic, m);
        let b = orderings_from(l, nodes, path.push(v), cyclic);
        let k = choose|k: int| 0 <= k < b.len() && b[k] == p;
        assert((a + b)[a.len() + k] == p);
        assert(steps(l, nodes, path, cyclic, m + 1).contains(p));
        lemma_steps_grow(l, nodes, path, cyclic, m + 1, nodes.len() as int, p);
    }
}

proof fn lemma_from_starts_grow(l: &Lattice, nodes: Seq<usize>, cyclic: bool, m: int, big: int, q: Seq<usize>)
    requires
        0 <= m <= big <= nodes.len(),
        from_starts(l, nodes, cyclic, m).contains(q),
    ensures
        from_starts(l, nodes, cyclic, big).contains(q),
    decreases big - m,
{
    if m < big {
        lemma_from_starts_grow(l, nodes, cyclic, m, big - 1, q);
        let a = from_starts(l, nodes, cyclic, big - 1);
        let k = choose|k: int| 0 <= k < a.len() && a[k] == q;
        let b = orderings_from(l, nodes, seq![nodes[big - 1]], cyclic);
        assert((a + b)[k] == q);
    }
}

proof fn lemma_from_starts_sound(l: &Lattice, nodes: Seq<usize>, cyclic: bool, m: int, q: Seq<usize>)
    requires
        0 <= m <= nodes.len(),
        from_starts(l, nodes, cyclic, m).contains(q),
    ensures
        is_partial_ordering(l, nodes, q),
        q.len() == nodes.len(),
        accepts(l, q, cyclic),
        exists|j: int| 0 <= j < m && q[0] == nodes[j],
    decreases m,
{
    let a = from_starts(l, nodes, cyclic, m - 1);
    let start = seq![nodes[m - 1]];
    let b = orderings_from(l, nodes, start, cyclic);
    let k = choose|k: int| 0 <= k < (a + b).len() && (a + b)[k] == q;
    if k < a.len() {
        assert(a[k] == q);
        lemma_from_starts_sound(l, nodes, cyclic, m - 1, q);
        let j = choose|j: int| 0 <= j < m - 1 && q[0] == nodes[j];
    } else {
        assert(b[k - a.len()] == q);
        assert(nodes.contains(nodes[m - 1]));
        assert(is_partial_ordering(l, nodes, start));
        lemma_orderings_sound(l, nodes, start, cyclic);
        assert(q.subrange(0, 1)[0] == start[0]);
        assert(q[0] == nodes[m - 1]);
    }
}

/// The seed orderings are exactly the Hamiltonian orderings of the rank-0
/// faces that the convention accepts: paths with first id at most last, or
/// cycles from the first rank-0 face with second id at most last.
pub proof fn lemma_seed_orderings_exact(l: &Lattice, cyclic: bool, p: Seq<usize>)
    ensures
        seed_orderings(l, cyclic).contains(p) <==> is_seed(l, p, cyclic),
{
    let nodes = l.level(0);
    let m = if cyclic {
        if nodes.len() > 0 {
            1int
        } else {
            0int
        }
    } else {
        nodes.len() as int
    };
    if seed_orderings(l, cyclic).contains(p) {
        lemma_from_starts_sound(l, nodes, cyclic, m, p);
    }
    if is_seed(l, p, cyclic) {
        let start = seq![p[0]];
        assert(nodes.contains(p[0]));
        let j = if cyclic {
            0int
        } else {
            choose|j: int| 0 <= j < nodes.len() && nodes[j] == p[0]
        };
        assert(nodes[j] == p[0]);
        assert(is_partial_ordering(l, nodes, start));
        assert(p.subrange(0, 1) =~= start);
        lemma_orderings_complete(l, nodes, start, cyclic, p);
        let a = from_starts(l, nodes, cyclic, j);
        let b = orderings_from(l, nodes, seq![nodes[j]], cyclic);
        let k = choose|k: int| 0 <= k < b.len() && b[k] == p;
        assert((a + b)[a.len() + k] == p);
        assert(from_starts(l, nodes, cyclic, j + 1).contains(p));
        lemma_from_starts_grow(l, nodes, cyclic, j + 1, m, p);
    }
}

proof fn lemma_concat_distinct(a: Seq<Seq<usize>>, b: Seq<Seq<usize>>)
    requires
        a.no_duplicates(),
        b.no_duplicates(),
        forall|x: int, y: int| 0 <= x < a.len() && 0 <= y < b.len() ==> a[x] != b[y],
    ensures
        (a + b).no_duplicates(),
{
    assert forall|x: int, y: int| 0 <= x < (a + b).len() && 0 <= y < (a + b).len() && x != y implies (a
        + b)[x] != (a + b)[y] by {
        if x < a.len() && y < a.len() {
            assert((a + b)[x] == a[x] && (a + b)[y] == a[y]);
        } else if x >= a.len() && y >= a.len() {
            assert((a + b)[x] == b[x - a.len()] && (a + b)[y] == b[y - a.len()]);
        } else if x < a.len() {
            assert((a + b)[x] == a[x] && (a + b)[y] == b[y - a.len()]);
        } else {
            assert((a + b)[y] == a[y] && (a + b)[x] == b[x - a.len()]);
        }
    }
}

/// Every ordering that continues `path` with one of the first `m` nodes
/// has one of them next.
proof fn lemma_steps_next(l: &Lattice, nodes: Seq<usize>, path: Seq<usize>, cyclic: bool, m: int)
    requires
        is_partial_ordering(l, nodes, path),
        path.len() < nodes.len(),
    ensures
        forall|k: int|
            0 <= k < steps(l, nodes, path, cyclic, m).len() ==> exists|j: int|
                0 <= j < m && #[trigger] steps(l, nodes, path, cyclic, m)[k][path.len() as int] == nodes[j],
    decreases m,
{
    if !(m <= 0 || m > nodes.len()) {
        lemma_steps_next(l, nodes, path, cyclic, m - 1);
        lemma_steps_sound(l, nodes, path, cyclic, m);
        let v = nodes[m - 1];
        let a = steps(l, nodes, path, cyclic, m - 1);
        let b = if !path.contains(v) && adjacent(l, path.last(), v) {
            orderings_from(l, nodes, path.push(v), cyclic)
        } else {
            seq![]
        };
        assert forall|k: int| 0 <= k < (a + b).len() implies exists|j: int|
            0 <= j < m && #[trigger] (a + b)[k][path.len() as int] == nodes[j] by {
            if k < a.len() {
                assert((a + b)[k] == a[k]);
                let j = choose|j: int| 0 <= j < m - 1 && a[k][path.len() as int] == nodes[j];
                assert((a + b)[k][path.len() as int] == nodes[j]);
            } else {
                let q = b[k - a.len()];
                assert((a + b)[k] == q);
                lemma_push_ordering(l, nodes, path, v);
                lemma_orderings_sound(l, nodes, path.push(v), cyclic);
                assert(q.subrange(0, path.len() as int + 1) == path.push(v));
                assert(q.subrange(0, path.len() as int + 1)[path.len() as int] == q[path.len() as int]);
                assert(q[path.len() as int] == nodes[m - 1]);
            }
        }
    }
}

proof fn lemma_orderings_distinct(l: &Lattice, nodes: Seq<usize>, path: Seq<usize>, cyclic: bool)
    requires
        is_partial_ordering(l, nodes, path),
        nodes.no_duplicates(),
    ensures
        orderings_from(l, nodes, path, cyclic).no_duplicates(),
    decreases nodes.len() - path.len(), 1int, 0int,
{
    if path.len() < nodes.len() {
        lemma_steps_distinct(l, nodes, path, cyclic, nodes.len() as int);
    }
}

proof fn lemma_steps_distinct(l: &Lattice, nodes: Seq<usize>, path: Seq<usize>, cyclic: bool, m: int)
    requires
        is_partial_ordering(l, nodes, path),
        nodes.no_duplicates(),
        path.len() < nodes.len(),
    ensures
        steps(l, nodes, path, cyclic, m).no_duplicates(),
    decreases nodes.len() - path.len(), 0int, m,
{
    if !(m <= 0 || m > nodes.len()) {
        lemma_steps_distinct(l, nodes, path, cyclic, m - 1);
        let v = nodes[m - 1];
        let a = steps(l, nodes, path, cyclic, m - 1);
        if !path.contains(v) && adjacent(l, path.last(), v) {
            lemma_push_ordering(l, nodes, path, v);
            lemma_orderings_distinct(l, nodes, path.push(v), cyclic);
            lemma_orderings_sound(l, nodes, path.push(v), cyclic);
            lemma_steps_next(l, nodes, path, cyclic, m - 1);
            let b = orderings_from(l, nodes, path.push(v), cyclic);
            assert forall|x: int, y: int| 0 <= x < a.len() && 0 <= y < b.len() implies a[x] != b[y] by {
                let j = choose|j: int| 0 <= j < m - 1 && a[x][path.len() as int] == nodes[j];
                assert(b[y].subrange(0, path.len() as int + 1) == path.push(v));
                assert(b[y].subrange(0, path.len() as int + 1)[path.len() as int] == b[y][path.len() as int]);
                assert(b[y][path.len() as int] == v);
                assert(nodes[j] != nodes[m - 1]);
            }
            lemma_concat_distinct(a, b);
        } else {
            assert(a + seq![] =~= a);
        }
    }
}

proof fn lemma_from_starts_distinct(l: &Lattice, nodes: Seq<usize>, cyclic: bool, m: int)
    requires
        0 <= m <= nodes.len(),
        nodes.no_duplicates(),
    ensures
        from_starts(l, nodes, cyclic, m).no_duplicates(),
    decreases m,
{
    if m > 0 {
        lemma_from_starts_distinct(l, nodes, cyclic, m - 1);
        let a = from_starts(l, nodes, cyclic, m - 1);
        let start = seq![nodes[m - 1]];
        assert(nodes.contains(nodes[m - 1]));
        assert(is_partial_ordering(l, nodes, start));
        lemma_orderings_distinct(l, nodes, start, cyclic);
        lemma_orderings_sound(l, nodes, start, cyclic);
        let b = orderings_from(l, nodes, start, cyclic);
        assert forall|x: int, y: int| 0 <= x < a.len() && 0 <= y < b.len() implies a[x] != b[y] by {
            assert(a.contains(a[x]));
            lemma_from_starts_sound(l, nodes, cyclic, m - 1, a[x]);
            let j = choose|j: int| 0 <= j < m - 1 && a[x][0] == nodes[j];
            assert(b[y].subrange(0, 1) == start);
            assert(b[y].subrange(0, 1)[0] == b[y][0]);
            assert(nodes[j] != nodes[m - 1]);
        }
        lemma_concat_distinct(a, b);
    }
}

proof fn lemma_ids_of_rank_increasing(faces: Seq<crate::lattice::Face>, r: int, m: int)
    requires
        m <= usize::MAX,
    ensures
        forall|x: int, y: int|
            0 <= x < y < crate::lattice::ids_of_rank(faces, r, m).len() ==> crate::lattice::ids_of_rank(
                faces,
                r,
                m,
            )[x] < crate::lattice::ids_of_rank(faces, r, m)[y],
        forall|x: int|
            0 <= x < crate::lattice::ids_of_rank(faces, r, m).len() ==> crate::lattice::ids_of_rank(
                faces,
                r,
                m,
            )[x] < m,
    decreases m,
{
    if m > 0 {
        lemma_ids_of_rank_increasing(faces, r, m - 1);
        let prev = crate::lattice::ids_of_rank(faces, r, m - 1);
        let cur = crate::lattice::ids_of_rank(faces, r, m);
        if faces[m - 1].dim == r {
            assert(cur == prev.push((m - 1) as usize));
            assert forall|x: int, y: int| 0 <= x < y < cur.len() implies cur[x] < cur[y] by {
                if y == prev.len() {
                    assert(cur[x] == prev[x]);
                } else {
                    assert(cur[x] == prev[x] && cur[y] == prev[y]);
                }
            }
            assert forall|x: int| 0 <= x < cur.len() implies cur[x] < m by {
                if x < prev.len() {
                    assert(cur[x] == prev[x]);
                }
            }
        } else {
            assert(cur == prev);
        }
    }
}

/// On a well-formed lattice no seed ordering comes twice.
pub proof fn lemma_seed_orderings_distinct(l: &Lattice, cyclic: bool)
    requires
        l.wf(),
    ensures
        seed_orderings(l, cyclic).no_duplicates(),
{
    let nodes = l.level(0);
    assert(l.levels@[0]@ == crate::lattice::ids_of_rank(l.faces@, 0, l.size()));
    lemma_ids_of_rank_increasing(l.faces@, 0, l.size());
    assert(nodes.no_duplicates());
    let m = if cyclic {
        if nodes.len() > 0 {
            1int
        } else {
            0int
        }
    } else {
        nodes.len() as int
    };
    lemma_from_starts_distinct(l, nodes, cyclic, m);
}

fn is_adjacent(l: &Lattice, a: usize, b: usize) -> (r: bool)
    ensures
        r == adjacent(l, a, b),
{
    if a < l.bridges.len() && b < l.bridges[a].len() {
        l.bridges[a][b].is_some()
    } else {
        false
    }
}

fn accepted(l: &Lattice, path: &Vec<usize>, cyclic: bool) -> (r: bool)
    requires
        path.len() > 0,
    ensures
        r == accepts(l, path@, cyclic),
{
    let last = path[path.len() - 1];
    if cyclic {
        (path.len() == 1 || is_adjacent(l, last, path[0])) && (path.len() < 2 || path[1] <= last)
    } else {
        path[0] <= last
    }
}

fn extend_paths(
    l: &Lattice,
    nodes: &Vec<usize>,
    path: &mut Vec<usize>,
    cyclic: bool,
    out: &mut Vec<Vec<usize>>,
)
    requires
        old(path).len() > 0,
        old(path).len() <= nodes.len(),
    ensures
        final(path)@ == old(path)@,
        final(out).deep_view() == old(out).deep_view() + orderings_from(l, nodes@, old(path)@, cyclic),
    decreases nodes.len() - old(path).len(),
{
    let ghost p0 = path@;
    let ghost out0 = out.deep_view();
    if path.len() == nodes.len() {
        if accepted(l, path, cyclic) {
            let snapshot = path.clone();
            proof {
                assert(snapshot@ =~= p0);
            }
            out.push(snapshot);
            proof {
                crate::gaps::lemma_rows(*out);
                assert(out.deep_view() =~= out0 + seq![p0]);
            }
        } else {
            proof {
                assert(out.deep_view() =~= out0 + Seq::<Seq<usize>>::empty());
            }
        }
        return;
    }
    let last = path[path.len() - 1];
    let mut m: usize = 0;
    while m < nodes.len()
        invariant
            p0.len() > 0,
            p0.len() < nodes.len(),
            last == p0.last(),
            path@ == p0,
            p0 == old(path)@,
            m <= nodes.len(),
            out.deep_view() == out0 + steps(l, nodes@, p0, cyclic, m as int),
        decreases nodes.len() - m,
    {
        let v = nodes[m];
        let ghost before = out.deep_view();
        if !contains(path, v) && is_adjacent(l, last, v) {
            path.push(v);
            extend_paths(l, nodes, path, cyclic, out);
            path.pop();
            proof {
                assert(path@ =~= p0);
            }
        }
        proof {
            let a = out0;
            let b = steps(l, nodes@, p0, cyclic, m as int);
            let c = if !p0.contains(v) && adjacent(l, p0.last(), v) {
                orderings_from(l, nodes@, p0.push(v), cyclic)
            } else {
                seq![]
            };
            assert(a + (b + c) =~= (a + b) + c);
            assert(out.deep_view() =~= before + c);
        }
        m += 1;
    }
}

impl Lattice {
    /// The seed orderings: over the rank-0 faces, the Hamiltonian paths of
    /// the bridge adjacency with first id at most last, or, when `cyclic`,
    /// its Hamiltonian cycles from the first rank-0 face, one direction each.
    pub fn ham_paths(&self, cyclic: bool) -> (r: Vec<Vec<usize>>)
        ensures
            r.deep_view() == seed_orderings(self, cyclic),
            forall|p: Seq<usize>| r.deep_view().contains(p) <==> #[trigger] is_seed(self, p, cyclic),
            self.wf() ==> r.deep_view().no_duplicates(),
    {
        proof {
            if self.wf() {
                lemma_seed_orderings_distinct(self, cyclic);
            }
        }
        proof {
            assert forall|p: Seq<usize>| seed_orderings(self, cyclic).contains(p) <==> #[trigger] is_seed(
                self,
                p,
                cyclic,
            ) by {
                lemma_seed_orderings_exact(self, cyclic, p);
            }
        }
        let mut out: Vec<Vec<usize>> = Vec::new();
        proof {
            assert(out.deep_view() =~= Seq::<Seq<usize>>::empty());
        }
        if self.levels.len() == 0 {
            return out;
        }
        let nodes = &self.levels[0];
        let starts = if cyclic && nodes.len() > 0 {
            1
        } else {
            nodes.len()
        };
        let mut m: usize = 0;
        while m < starts
            invariant
                nodes@ == self.level(0),
                starts <= nodes.len(),
                cyclic ==> starts == (if nodes.len() > 0 {
                    1int
                } else {
                    0int
                }),
                !cyclic ==> starts == nodes.len(),
                m <= starts,
                out.deep_view() == from_starts(self, nodes@, cyclic, m as int),
            decreases starts - m,
        {
            let mut path: Vec<usize> = Vec::new();
            path.push(nodes[m]);
            proof {
                assert(path@ =~= seq![nodes@[m as int]]);
            }
            extend_paths(self, nodes, &mut path, cyclic, &mut out);
            m += 1;
        }
        out
    }
}

} // verus!
