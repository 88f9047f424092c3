//! The face lattice: an arena of faces with their covering relation, the
//! faces grouped by rank, and the precomputed bridge of every pair of faces.

use vstd::prelude::*;

verus! {

/// A face of a ranked lattice, identified by its position in the arena.
#[derive(Debug)]
pub struct Face {
    /// Display text; the search never reads it.
    pub label: String,
    /// The rank of the face.
    pub dim: usize,
    /// The faces one rank above that cover this face.
    pub upset: Vec<usize>,
    /// The faces one rank below that this face covers.
    pub downset: Vec<usize>,
}

/// A ranked lattice with its faces grouped by rank and its bridge table.
#[derive(Debug)]
pub struct Lattice {
    pub faces: Vec<Face>,
    /// `levels[r]`: the ids of the faces of rank `r`, in increasing order.
    pub levels: Vec<Vec<usize>>,
    /// `bridges[a][b]`: the first face that covers both `a` and `b`, for
    /// `a != b`; `None` where no face does, and on the diagonal.
    pub bridges: Vec<Vec<Option<usize>>>,
    /// The largest rank of a face (0 for an empty arena).
    pub dim: usize,
    /// Seed orderings that came with the lattice.
    pub ham_cycles: Vec<Vec<usize>>,
}

/// Face `g` covers both `a` and `b`.
pub open spec fn is_bridge(faces: Seq<Face>, g: int, a: usize, b: usize) -> bool {
    faces[g].downset@.contains(a) && faces[g].downset@.contains(b)
}

/// The first face at position `k` or later that covers both `a` and `b`.
pub open spec fn first_bridge_from(faces: Seq<Face>, a: usize, b: usize, k: int) -> Option<usize>
    decreases faces.len() - k,
{
    if k < 0 || k >= faces.len() {
        None
    } else if is_bridge(faces, k, a, b) {
        Some(k as usize)
    } else {
        first_bridge_from(faces, a, b, k + 1)
    }
}

/// The bridge of `a` and `b`: the face of least id that covers both.
pub open spec fn bridge_of(faces: Seq<Face>, a: usize, b: usize) -> Option<usize> {
    first_bridge_from(faces, a, b, 0)
}

/// The entry of the bridge table for `a` and `b`: their bridge for two
/// distinct faces, none on the diagonal.
pub open spec fn table_entry(faces: Seq<Face>, a: usize, b: usize) -> Option<usize> {
    if a == b {
        None
    } else {
        bridge_of(faces, a, b)
    }
}

/// What `first_bridge_from` finds is a bridge with none before it from `k`
/// on; when it finds none, no face from `k` on is a bridge.
pub proof fn lemma_first_bridge(faces: Seq<Face>, a: usize, b: usize, k: int)
    requires
        0 <= k,
        faces.len() <= usize::MAX,
    ensures
        match first_bridge_from(faces, a, b, k) {
            Some(g) => k <= g < faces.len() && is_bridge(faces, g as int, a, b) && forall|j: int|
                k <= j < g ==> !#[trigger] is_bridge(faces, j, a, b),
            None => forall|j: int| k <= j < faces.len() ==> !#[trigger] is_bridge(faces, j, a, b),
        },
    decreases faces.len() - k,
{
    if k < faces.len() {
        if !is_bridge(faces, k, a, b) {
            lemma_first_bridge(faces, a, b, k + 1);
            match first_bridge_from(faces, a, b, k + 1) {
                Some(g) => {
                    assert forall|j: int| k <= j < g implies !#[trigger] is_bridge(faces, j, a, b) by {
                        if j > k {
                            assert(k + 1 <= j < g);
                        }
                    }
                },
                None => {},
            }
        } else {
            assert((k as usize) as int == k);
        }
    }
}

/// The ids below `m` of the faces of rank `r`, in increasing order.
pub open spec fn ids_of_rank(faces: Seq<Face>, r: int, m: int) -> Seq<usize>
    decreases m,
{
    if m <= 0 {
        seq![]
    } else if faces[m - 1].dim == r {
        ids_of_rank(faces, r, m - 1).push((m - 1) as usize)
    } else {
        ids_of_rank(faces, r, m - 1)
    }
}

/// The largest rank among the first `m` faces; 0 when there are none.
pub open spec fn max_rank(faces: Seq<Face>, m: int) -> nat
    decreases m,
{
    if m <= 0 {
        0
    } else {
        let d = max_rank(faces, m - 1);
        if faces[m - 1].dim > d {
            faces[m - 1].dim as nat
        } else {
            d
        }
    }
}

/// The largest rank is at most a bound that every rank meets.
pub proof fn lemma_max_rank_bound(faces: Seq<Face>, m: int, bound: nat)
    requires
        m <= faces.len(),
        forall|i: int| 0 <= i < m ==> #[trigger] faces[i].dim <= bound,
    ensures
        max_rank(faces, m) <= bound,
    decreases m,
{
    if m > 0 {
        lemma_max_rank_bound(faces, m - 1, bound);
        assert(faces[m - 1].dim <= bound);
    }
}

impl Lattice {
    /// The number of faces.
    pub open spec fn size(&self) -> int {
        self.faces@.len() as int
    }

    /// The upset of face `f`; empty for an id outside the arena.
    pub open spec fn upset_of(&self, f: int) -> Seq<usize> {
        if 0 <= f < self.size() {
            self.faces@[f].upset@
        } else {
            seq![]
        }
    }

    /// The downset of face `f`; empty for an id outside the arena.
    pub open spec fn downset_of(&self, f: int) -> Seq<usize> {
        if 0 <= f < self.size() {
            self.faces@[f].downset@
        } else {
            seq![]
        }
    }

    /// The entry of the bridge table for `a` and `b`; none outside the table.
    pub open spec fn bridge_at(&self, a: int, b: int) -> Option<usize> {
        if 0 <= a < self.bridges@.len() && 0 <= b < self.bridges@[a]@.len() {
            self.bridges@[a]@[b]
        } else {
            None
        }
    }

    /// The ids of rank `r`; empty for a rank outside the lattice.
    pub open spec fn level(&self, r: int) -> Seq<usize> {
        if 0 <= r < self.levels@.len() {
            self.levels@[r]@
        } else {
            seq![]
        }
    }

    /// The levels, the rank and the bridge table agree with the faces; the
    /// table holds the bridge of every pair of distinct faces and none on
    /// the diagonal.
    pub open spec fn wf(&self) -> bool {
        &&& self.size() <= usize::MAX
        &&& self.dim == max_rank(self.faces@, self.size())
        &&& self.levels@.len() == self.dim + 1
        &&& forall|r: int| 0 <= r <= self.dim ==> #[trigger] self.levels@[r]@ == ids_of_rank(self.faces@, r, self.size())
        &&& self.bridges@.len() == self.size()
        &&& forall|a: int| 0 <= a < self.size() ==> #[trigger] self.bridges@[a]@.len() == self.size()
        &&& forall|a: int, b: int|
            0 <= a < self.size() && 0 <= b < self.size() ==> #[trigger] self.bridge_at(a, b) == table_entry(
                self.faces@,
                a as usize,
                b as usize,
            )
    }
}

fn contains_both(v: &Vec<usize>, a: usize, b: usize) -> (r: bool)
    ensures
        r == (v@.contains(a) && v@.contains(b)),
{
    crate::interval::contains(v, a) && crate::interval::contains(v, b)
}

/// The bridge of `f1` and `f2`: the first face whose downset holds both;
/// none when no face's downset does.
pub fn bridge(faces: &Vec<Face>, f1: usize, f2: usize) -> (r: Option<usize>)
    ensures
        r == bridge_of(faces@, f1, f2),
        match r {
            Some(g) => g < faces@.len() && is_bridge(faces@, g as int, f1, f2) && forall|j: int|
                0 <= j < g ==> !#[trigger] is_bridge(faces@, j, f1, f2),
            None => forall|j: int| 0 <= j < faces@.len() ==> !#[trigger] is_bridge(faces@, j, f1, f2),
        },
{
    let n = faces.len();
    let mut i: usize = 0;
    while i < faces.len()
        invariant
            i <= faces.len(),
            first_bridge_from(faces@, f1, f2, 0) == first_bridge_from(faces@, f1, f2, i as int),
            faces@.len() == n,
        decreases faces.len() - i,
    {
        if contains_both(&faces[i].downset, f1, f2) {
            proof {
                lemma_first_bridge(faces@, f1, f2, 0);
            }
            return Some(i);
        }
        i += 1;
    }
    proof {
        lemma_first_bridge(faces@, f1, f2, 0);
    }
    None
}

fn rank_members(faces: &Vec<Face>, r: usize) -> (ids: Vec<usize>)
    ensures
        ids@ == ids_of_rank(faces@, r as int, faces@.len() as int),
{
    let mut ids: Vec<usize> = Vec::new();
    let mut i: usize = 0;
    while i < faces.len()
        invariant
            i <= faces.len(),
            ids@ == ids_of_rank(faces@, r as int, i as int),
        decreases faces.len() - i,
    {
        if faces[i].dim == r {
            ids.push(i);
        }
        i += 1;
    }
    ids
}

fn top_rank(faces: &Vec<Face>) -> (d: usize)
    ensures
        d == max_rank(faces@, faces@.len() as int),
{
    let mut d: usize = 0;
    let mut i: usize = 0;
    while i < faces.len()
        invariant
            i <= faces.len(),
            d == max_rank(faces@, i as int),
        decreases faces.len() - i,
    {
        if faces[i].dim > d {
            d = faces[i].dim;
        }
        i += 1;
    }
    d
}

/// The lattice of `faces`: its rank, its levels and its bridge table are
/// computed from the covering relation; `ham_cycles` is carried along.
pub fn lattice_from_faces(faces: Vec<Face>, ham_cycles: Vec<Vec<usize>>) -> (l: Lattice)
    requires
        max_rank(faces@, faces@.len() as int) < usize::MAX,
    ensures
        l.wf(),
        l.faces@ == faces@,
        l.ham_cycles@ == ham_cycles@,
{
    let n = faces.len();
    let dim = top_rank(&faces);
    let mut levels: Vec<Vec<usize>> = Vec::new();
    let mut r: usize = 0;
    while r <= dim
        invariant
            r <= dim + 1,
            dim < usize::MAX,
            levels@.len() == r,
            forall|q: int| 0 <= q < r ==> #[trigger] levels@[q]@ == ids_of_rank(faces@, q, n as int),
            n == faces@.len(),
        decreases dim + 1 - r,
    {
        let ids = rank_members(&faces, r);
        levels.push(ids);
        r += 1;
    }
    let mut bridges: Vec<Vec<Option<usize>>> = Vec::new();
    let mut a: usize = 0;
    while a < n
        invariant
            a <= n,
            n == faces@.len(),
            bridges@.len() == a,
            forall|x: int| 0 <= x < a ==> #[trigger] bridges@[x]@.len() == n,
            forall|x: int, y: int|
                0 <= x < a && 0 <= y < n ==> #[trigger] bridges@[x]@[y] == table_entry(
                    faces@,
                    x as usize,
                    y as usize,
                ),
        decreases n - a,
    {
        let mut row: Vec<Option<usize>> = Vec::new();
        let mut b: usize = 0;
        while b < n
            invariant
                a < n,
                b <= n,
                n == faces@.len(),
                row@.len() == b,
                forall|y: int| 0 <= y < b ==> #[trigger] row@[y] == table_entry(faces@, a, y as usize),
            decreases n - b,
        {
            if a == b {
                row.push(None);
            } else {
                row.push(bridge(&faces, a, b));
            }
            b += 1;
        }
        bridges.push(row);
        a += 1;
    }
    Lattice { faces, levels, bridges, dim, ham_cycles }
}

} // verus!
